//! Exact range checking of JSON number texts.
//!
//! A number inside a parsed report is kept as the decimal text the parser
//! rendered for it.  Whether such a number lies in the closed unit interval
//! is decided exactly over that text — sign, digits and exponent — with no
//! floating point anywhere.

use vstd::prelude::*;

verus! {

use vstd::arithmetic::power::pow;
use vstd::arithmetic::power::lemma_pow_positive;
use vstd::arithmetic::power::lemma_pow_increases;

broadcast use vstd::seq::group_seq_axioms;

/// A decimal digit.
pub open spec fn is_digit(c: char) -> bool {
    '0' as u32 <= c as u32 && c as u32 <= '9' as u32
}

/// The numeric value of a digit character.
pub open spec fn digit_val(c: char) -> nat {
    ((c as u32) - 48) as nat
}

/// Every character of `s` is a digit.
pub open spec fn all_digits(s: Seq<char>) -> bool {
    forall|i: int| 0 <= i < s.len() ==> is_digit(#[trigger] s[i])
}

/// The value of a digit string read in base ten.
pub open spec fn digits_val(s: Seq<char>) -> nat
    decreases s.len(),
{
    if s.len() == 0 {
        0
    } else {
        digits_val(s.drop_last()) * 10 + digit_val(s.last())
    }
}

/// How many digits `s` starts with.
pub open spec fn digit_prefix_len(s: Seq<char>) -> int
    decreases s.len(),
{
    if s.len() == 0 || !is_digit(s[0]) {
        0
    } else {
        1 + digit_prefix_len(s.drop_first())
    }
}

/// How many `'0'` characters `s` starts with.
pub open spec fn zeros_prefix_len(s: Seq<char>) -> int
    decreases s.len(),
{
    if s.len() == 0 || s[0] != '0' {
        0
    } else {
        1 + zeros_prefix_len(s.drop_first())
    }
}

/// The pieces of a JSON number text: sign, integer digits, fraction digits,
/// exponent sign and exponent digits.
pub struct NumParts {
    pub neg: bool,
    pub int_digits: Seq<char>,
    pub frac_digits: Seq<char>,
    pub exp_neg: bool,
    pub exp_digits: Seq<char>,
}

/// Splits a number text into its pieces: `-? digits (. digits)? ((e|E)
/// (+|-)? digits)?`.  Texts of any other shape yield `None`.
pub open spec fn parse_number(s: Seq<char>) -> Option<NumParts> {
    let neg = s.len() > 0 && s[0] == '-';
    let s1 = if neg {
        s.drop_first()
    } else {
        s
    };
    let k1 = digit_prefix_len(s1);
    if k1 == 0 {
        None
    } else {
        let int_digits = s1.take(k1);
        let rest = s1.skip(k1);
        let has_frac = rest.len() > 0 && rest[0] == '.';
        let k2 = if has_frac {
            digit_prefix_len(rest.drop_first())
        } else {
            0
        };
        if has_frac && k2 == 0 {
            None
        } else {
            let frac_digits = if has_frac {
                rest.drop_first().take(k2)
            } else {
                Seq::<char>::empty()
            };
            let rest2 = if has_frac {
                rest.drop_first().skip(k2)
            } else {
                rest
            };
            if rest2.len() == 0 {
                Some(
                    NumParts {
                        neg,
                        int_digits,
                        frac_digits,
                        exp_neg: false,
                        exp_digits: Seq::<char>::empty(),
                    },
                )
            } else if rest2[0] == 'e' || rest2[0] == 'E' {
                let r3 = rest2.drop_first();
                let exp_neg = r3.len() > 0 && r3[0] == '-';
                let signed = r3.len() > 0 && (r3[0] == '-' || r3[0] == '+');
                let r4 = if signed {
                    r3.drop_first()
                } else {
                    r3
                };
                let k3 = digit_prefix_len(r4);
                if k3 == 0 || k3 < r4.len() {
                    None
                } else {
                    Some(
                        NumParts {
                            neg,
                            int_digits,
                            frac_digits,
                            exp_neg,
                            exp_digits: r4,
                        },
                    )
                }
            } else {
                None
            }
        }
    }
}

/// Whether the number the pieces denote lies in the closed interval from
/// zero to one: its value is `sign · m · 10^(e − f)` for mantissa `m`,
/// fraction length `f` and exponent `e`, so it lies in the interval exactly
/// when `m` is zero, or the sign is positive and `m ≤ 10^(f − e)`.
pub open spec fn num_parts_in_unit(p: NumParts) -> bool {
    let m = digits_val(p.int_digits + p.frac_digits);
    let f = p.frac_digits.len() as int;
    let e = if p.exp_neg {
        -(digits_val(p.exp_digits) as int)
    } else {
        digits_val(p.exp_digits) as int
    };
    m == 0 || (!p.neg && f - e >= 0 && m <= pow(10, (f - e) as nat))
}

/// Whether `s` is a number text whose value lies in the closed unit
/// interval.
pub open spec fn num_text_in_unit(s: Seq<char>) -> bool {
    match parse_number(s) {
        Some(p) => num_parts_in_unit(p),
        None => false,
    }
}

/// Distinct characters have distinct code points.
proof fn lemma_char_code_ne(c: char, d: char)
    requires
        c != d,
    ensures
        c as u32 != d as u32,
{
    if c as u32 == d as u32 {
        crate::text::lemma_char_inj(c, d);
    }
}

/// A scan that saw digits up to `k` and a non-digit (or the end) at `k`
/// determines the digit prefix length.
proof fn lemma_digit_prefix(s: Seq<char>, k: int)
    requires
        0 <= k <= s.len(),
        forall|j: int| 0 <= j < k ==> is_digit(#[trigger] s[j]),
        k == s.len() || !is_digit(s[k]),
    ensures
        digit_prefix_len(s) == k,
    decreases k,
{
    if k > 0 {
        lemma_digit_prefix(s.drop_first(), k - 1);
    }
}

/// The same, for the zeros prefix.
proof fn lemma_zeros_prefix(s: Seq<char>, k: int)
    requires
        0 <= k <= s.len(),
        forall|j: int| 0 <= j < k ==> #[trigger] s[j] == '0',
        k == s.len() || s[k] != '0',
    ensures
        zeros_prefix_len(s) == k,
    decreases k,
{
    if k > 0 {
        lemma_zeros_prefix(s.drop_first(), k - 1);
    }
}

/// A digit string's value is below ten to its length.
proof fn lemma_digits_val_upper(s: Seq<char>)
    requires
        all_digits(s),
    ensures
        digits_val(s) < pow(10, s.len() as nat),
    decreases s.len(),
{
    reveal(pow);
    if s.len() == 0 {
    } else {
        assert(all_digits(s.drop_last())) by {
            assert(forall|i: int|
                0 <= i < s.len() - 1 ==> #[trigger] s.drop_last()[i] == s[i]);
        }
        lemma_digits_val_upper(s.drop_last());
        assert(is_digit(s.last()));
        assert(digit_val(s.last()) <= 9);
        assert(pow(10, s.len() as nat) == 10 * pow(10, (s.len() - 1) as nat));
    }
}

/// Peeling the first digit off a string: its value is that digit times ten
/// to the rest's length, plus the rest's value.
proof fn lemma_digits_val_front(s: Seq<char>)
    requires
        s.len() >= 1,
    ensures
        digits_val(s) == digit_val(s[0]) * pow(10, (s.len() - 1) as nat) + digits_val(
            s.drop_first(),
        ),
    decreases s.len(),
{
    reveal(pow);
    if s.len() == 1 {
        assert(s.drop_last().len() == 0);
        assert(s.drop_first().len() == 0);
        assert(digits_val(s.drop_last()) == 0);
        assert(digits_val(s.drop_first()) == 0);
        assert(s.last() == s[0]);
        assert(pow(10, 0) == 1);
    } else {
        let dl = s.drop_last();
        lemma_digits_val_front(dl);
        assert(dl[0] == s[0]);
        assert(dl.drop_first() =~= s.drop_first().drop_last());
        assert(s.drop_first().last() == s.last());
        let mid = s.drop_first().drop_last();
        let a = digit_val(s[0]) as int;
        let p = pow(10, (s.len() - 2) as nat);
        assert(digits_val(s) == digits_val(dl) * 10 + digit_val(s.last()));
        assert(digits_val(dl) == a * p + digits_val(mid));
        assert(pow(10, (s.len() - 1) as nat) == 10 * pow(10, (s.len() - 2) as nat));
        assert((a * p + digits_val(mid)) * 10 == a * (10 * p) + digits_val(mid) * 10)
            by (nonlinear_arith);
        assert(digits_val(s) == a * (10 * p) + digits_val(mid) * 10 + digit_val(s.last()));
        assert(digits_val(s.drop_first()) == digits_val(mid) * 10 + digit_val(
            s.drop_first().last(),
        ));
        assert(digits_val(s) == a * pow(10, (s.len() - 1) as nat) + digits_val(s.drop_first()));
    }
}

/// A leading zero does not change a digit string's value.
proof fn lemma_digits_val_zero_strip(s: Seq<char>)
    requires
        s.len() >= 1,
        s[0] == '0',
    ensures
        digits_val(s) == digits_val(s.drop_first()),
{
    lemma_digits_val_front(s);
    assert(digit_val(s[0]) == 0);
    let a = digit_val(s[0]) as int;
    let p = pow(10, (s.len() - 1) as nat);
    assert(a * p == 0) by (nonlinear_arith)
        requires
            a == 0,
    ;
}

/// Stripping all leading zeros keeps the value.
proof fn lemma_digits_val_skip_zeros(s: Seq<char>, k: int)
    requires
        0 <= k <= s.len(),
        forall|j: int| 0 <= j < k ==> #[trigger] s[j] == '0',
    ensures
        digits_val(s) == digits_val(s.skip(k)),
    decreases k,
{
    if k > 0 {
        lemma_digits_val_zero_strip(s);
        assert(s.drop_first() =~= s.skip(1));
        lemma_digits_val_skip_zeros(s.skip(1), k - 1);
        assert(s.skip(1).skip(k - 1) =~= s.skip(k));
    } else {
        assert(s.skip(0) =~= s);
    }
}

/// A digit string that does not start with zero is at least ten to the power
/// of one less than its length.
proof fn lemma_digits_val_lower(s: Seq<char>)
    requires
        s.len() >= 1,
        all_digits(s),
        s[0] != '0',
    ensures
        digits_val(s) >= pow(10, (s.len() - 1) as nat),
{
    lemma_digits_val_front(s);
    assert(is_digit(s[0]));
    lemma_char_code_ne(s[0], '0');
    assert(digit_val(s[0]) >= 1);
    lemma_pow_positive(10, (s.len() - 1) as nat);
    let a = digit_val(s[0]) as int;
    let p = pow(10, (s.len() - 1) as nat);
    assert(a * p >= p) by (nonlinear_arith)
        requires
            a >= 1,
            p >= 1,
    ;
}

/// A digit string's value is zero exactly when all its digits are zero.
proof fn lemma_digits_val_zero_iff(s: Seq<char>)
    requires
        all_digits(s),
    ensures
        (digits_val(s) == 0) <==> (forall|i: int| 0 <= i < s.len() ==> #[trigger] s[i] == '0'),
    decreases s.len(),
{
    if s.len() > 0 {
        let dl = s.drop_last();
        assert(all_digits(dl)) by {
            assert(forall|i: int| 0 <= i < dl.len() ==> #[trigger] dl[i] == s[i]);
        }
        lemma_digits_val_zero_iff(dl);
        assert(is_digit(s.last()));
        assert(digits_val(s) == digits_val(dl) * 10 + digit_val(s.last()));
        if forall|i: int| 0 <= i < s.len() ==> #[trigger] s[i] == '0' {
            assert(forall|i: int| 0 <= i < dl.len() ==> #[trigger] dl[i] == s[i]);
            assert(digits_val(dl) == 0);
            assert(s.last() == s[s.len() - 1]);
            assert(s.last() == '0');
            assert(digit_val('0') == 0);
            assert(digits_val(s) == 0);
        } else {
            let i = choose|i: int| 0 <= i < s.len() && #[trigger] s[i] != '0';
            if i < s.len() - 1 {
                assert(dl[i] == s[i]);
                assert(!(forall|j: int| 0 <= j < dl.len() ==> #[trigger] dl[j] == '0'));
                assert(digits_val(dl) >= 1);
                assert(digits_val(s) >= 10);
            } else {
                assert(s[i] == s.last());
                lemma_char_code_ne(s.last(), '0');
                assert(digit_val(s.last()) >= 1);
                assert(digits_val(s) >= 1);
            }
            assert(digits_val(s) != 0);
        }
    }
}

/// A digit string reading `1` followed by zeros has value ten to the power
/// of its length less one; any other string without a leading zero differs.
proof fn lemma_digits_val_pow_shape(s: Seq<char>)
    requires
        s.len() >= 1,
        all_digits(s),
        s[0] != '0',
    ensures
        (digits_val(s) == pow(10, (s.len() - 1) as nat)) <==> (s[0] == '1' && forall|i: int|
            1 <= i < s.len() ==> #[trigger] s[i] == '0'),
{
    reveal(pow);
    lemma_digits_val_front(s);
    let rest = s.drop_first();
    assert(all_digits(rest)) by {
        assert(forall|i: int| 0 <= i < rest.len() ==> #[trigger] rest[i] == s[i + 1]);
    }
    lemma_digits_val_zero_iff(rest);
    lemma_digits_val_upper(rest);
    lemma_pow_positive(10, (s.len() - 1) as nat);
    assert(is_digit(s[0]));
    let p = pow(10, (s.len() - 1) as nat);
    if s[0] == '1' {
        assert(digit_val(s[0]) == 1);
        let a = digit_val(s[0]) as int;
        assert(a * p == p) by (nonlinear_arith)
            requires
                a == 1,
        ;
        assert(digits_val(s) == p + digits_val(rest));
        if digits_val(s) == p {
            assert(digits_val(rest) == 0);
            assert(forall|i: int| 0 <= i < rest.len() ==> #[trigger] rest[i] == '0');
            assert forall|i: int| 1 <= i < s.len() implies #[trigger] s[i] == '0' by {
                assert(rest[i - 1] == s[i]);
            }
        }
        if forall|i: int| 1 <= i < s.len() ==> #[trigger] s[i] == '0' {
            assert(forall|i: int| 0 <= i < rest.len() ==> #[trigger] rest[i] == s[i + 1]);
            assert(forall|i: int| 0 <= i < rest.len() ==> #[trigger] rest[i] == '0');
            assert(digits_val(rest) == 0);
            assert(digits_val(s) == p);
        }
    } else {
        lemma_char_code_ne(s[0], '0');
        lemma_char_code_ne(s[0], '1');
        assert(digit_val(s[0]) >= 2);
        let a = digit_val(s[0]) as int;
        assert(a * p >= 2 * p) by (nonlinear_arith)
            requires
                a >= 2,
                p >= 1,
        ;
        assert(digits_val(s) > p);
    }
}

/// Ten to the twentieth and twenty-first power, written out.
proof fn lemma_pow10_literals()
    ensures
        pow(10, 20) == 100000000000000000000,
        pow(10, 21) == 1000000000000000000000,
{
    reveal_with_fuel(pow, 22);
}

/// Whether `c` is a decimal digit.
fn digit(c: char) -> (r: bool)
    ensures
        r == is_digit(c),
{
    let u: u32 = c as u32;
    48 <= u && u <= 57
}

/// The end of the run of digits starting at `from`.
fn scan_digits(cs: &Vec<char>, from: usize) -> (r: usize)
    requires
        from <= cs@.len(),
    ensures
        from <= r <= cs@.len(),
        digit_prefix_len(cs@.skip(from as int)) == r - from,
        forall|j: int| from <= j < r ==> is_digit(#[trigger] cs@[j]),
        r == cs@.len() || !is_digit(cs@[r as int]),
{
    let n: usize = cs.len();
    let mut r: usize = from;
    loop
        invariant
            from <= r <= n,
            n == cs@.len(),
            forall|j: int| from <= j < r ==> is_digit(#[trigger] cs@[j]),
        decreases n - r,
    {
        if r == n || !digit(cs[r]) {
            proof {
                let sk = cs@.skip(from as int);
                assert(forall|j: int| 0 <= j < sk.len() ==> #[trigger] sk[j] == cs@[from + j]);
                lemma_digit_prefix(sk, r - from);
            }
            return r;
        }
        r = r + 1;
    }
}

/// The end of the run of `'0'` characters starting at `from`.
fn scan_zeros(cs: &Vec<char>, from: usize) -> (r: usize)
    requires
        from <= cs@.len(),
    ensures
        from <= r <= cs@.len(),
        zeros_prefix_len(cs@.skip(from as int)) == r - from,
        forall|j: int| from <= j < r ==> #[trigger] cs@[j] == '0',
        r == cs@.len() || cs@[r as int] != '0',
{
    let n: usize = cs.len();
    let mut r: usize = from;
    loop
        invariant
            from <= r <= n,
            n == cs@.len(),
            forall|j: int| from <= j < r ==> #[trigger] cs@[j] == '0',
        decreases n - r,
    {
        if r == n || cs[r] != '0' {
            proof {
                let sk = cs@.skip(from as int);
                assert(forall|j: int| 0 <= j < sk.len() ==> #[trigger] sk[j] == cs@[from + j]);
                lemma_zeros_prefix(sk, r - from);
            }
            return r;
        }
        r = r + 1;
    }
}

/// The index layout found by [`scan_number`]: where each piece of the
/// number text sits in the character vector.
struct ScanOut {
    neg: bool,
    p0: usize,
    int_end: usize,
    frac_start: usize,
    frac_end: usize,
    exp_neg: bool,
    exp_start: usize,
    exp_end: usize,
}

/// The number pieces a scan layout denotes.
spec fn parts_of(sv: Seq<char>, o: ScanOut) -> NumParts {
    NumParts {
        neg: o.neg,
        int_digits: sv.subrange(o.p0 as int, o.int_end as int),
        frac_digits: sv.subrange(o.frac_start as int, o.frac_end as int),
        exp_neg: o.exp_neg,
        exp_digits: sv.subrange(o.exp_start as int, o.exp_end as int),
    }
}

/// Scans a number text and finds its pieces, or rejects it.
#[verifier::rlimit(100)]
fn scan_number(cs: &Vec<char>) -> (r: Option<ScanOut>)
    ensures
        match r {
            None => parse_number(cs@) is None,
            Some(o) => {
                &&& parse_number(cs@) == Some(parts_of(cs@, o))
                &&& o.p0 <= o.int_end <= o.frac_start <= o.frac_end <= o.exp_start <= o.exp_end
                    == cs@.len()
                &&& forall|j: int|
                    o.p0 <= j < o.int_end || o.frac_start <= j < o.frac_end || o.exp_start <= j
                        < o.exp_end ==> is_digit(#[trigger] cs@[j])
            },
        },
{
    let n: usize = cs.len();
    let neg: bool = n > 0 && cs[0] == '-';
    let p0: usize = if neg {
        1
    } else {
        0
    };
    let ghost s1 = if neg {
        cs@.drop_first()
    } else {
        cs@
    };
    proof {
        assert(s1 =~= cs@.skip(p0 as int));
    }
    let int_end: usize = scan_digits(cs, p0);
    proof {
        assert(digit_prefix_len(s1) == int_end - p0);
    }
    if int_end == p0 {
        return None;
    }
    let ghost int_digits = s1.take((int_end - p0) as int);
    proof {
        assert(int_digits =~= cs@.subrange(p0 as int, int_end as int));
        assert(s1.skip((int_end - p0) as int) =~= cs@.skip(int_end as int));
    }
    let has_frac: bool = int_end < n && cs[int_end] == '.';
    let frac_start: usize = if has_frac {
        int_end + 1
    } else {
        int_end
    };
    let frac_end: usize = if has_frac {
        let fe = scan_digits(cs, frac_start);
        proof {
            assert(cs@.skip(int_end as int).drop_first() =~= cs@.skip(frac_start as int));
        }
        fe
    } else {
        int_end
    };
    if has_frac && frac_end == frac_start {
        return None;
    }
    let ghost frac_digits = cs@.subrange(frac_start as int, frac_end as int);
    proof {
        if has_frac {
            let rest = cs@.skip(int_end as int);
            assert(rest.drop_first() =~= cs@.skip(frac_start as int));
            assert(frac_digits =~= rest.drop_first().take((frac_end - frac_start) as int));
            assert(rest.drop_first().skip((frac_end - frac_start) as int) =~= cs@.skip(
                frac_end as int,
            ));
        } else {
            assert(frac_digits =~= Seq::<char>::empty());
        }
    }
    let after: usize = frac_end;
    let ghost rest2 = cs@.skip(after as int);
    let mut exp_neg: bool = false;
    let mut exp_start: usize = after;
    let mut exp_end: usize = after;
    if after < n {
        let c: char = cs[after];
        if c != 'e' && c != 'E' {
            return None;
        }
        let ep0: usize = after + 1;
        proof {
            assert(rest2.drop_first() =~= cs@.skip(ep0 as int));
        }
        let esigned: bool = ep0 < n && (cs[ep0] == '+' || cs[ep0] == '-');
        exp_neg = ep0 < n && cs[ep0] == '-';
        exp_start = if esigned {
            ep0 + 1
        } else {
            ep0
        };
        proof {
            if esigned {
                assert(cs@.skip(ep0 as int).drop_first() =~= cs@.skip(exp_start as int));
            }
        }
        exp_end = scan_digits(cs, exp_start);
        if exp_end == exp_start || exp_end < n {
            return None;
        }
        proof {
            assert(cs@.skip(exp_start as int).len() == n - exp_start);
        }
    } else {
        proof {
            assert(rest2.len() == 0);
        }
    }
    let o = ScanOut { neg, p0, int_end, frac_start, frac_end, exp_neg, exp_start, exp_end };
    proof {
        let exp_digits = cs@.subrange(exp_start as int, exp_end as int);
        if after < n {
            assert(exp_digits =~= cs@.skip(exp_start as int).take(
                digit_prefix_len(cs@.skip(exp_start as int)),
            ));
        } else {
            assert(exp_digits =~= Seq::<char>::empty());
        }
        assert(parse_number(cs@) == Some(parts_of(cs@, o)));
    }
    Some(o)
}

/// Decides exactly whether `s` is a number text whose value lies in the
/// closed interval from zero to one.
pub fn check_unit_interval(s: &str) -> (r: bool)
    ensures
        r == num_text_in_unit(s@),
{
    let cs: Vec<char> = crate::text::str_to_chars(s);
    let scanned = scan_number(&cs);
    let o: ScanOut = match scanned {
        Some(o) => o,
        None => {
            return false;
        },
    };
    let ghost parts = parts_of(cs@, o);
    // lay the mantissa digits side by side
    let mut mant: Vec<char> = Vec::new();
    let mut i: usize = o.p0;
    let int_end: usize = o.int_end;
    let frac_start: usize = o.frac_start;
    let frac_end: usize = o.frac_end;
    while i < int_end
        invariant
            o.p0 <= i <= int_end <= cs@.len(),
            int_end == o.int_end,
            mant@ =~= cs@.subrange(o.p0 as int, i as int),
        decreases int_end - i,
    {
        mant.push(cs[i]);
        i = i + 1;
    }
    let mut j: usize = frac_start;
    while j < frac_end
        invariant
            frac_start <= j <= frac_end <= cs@.len(),
            frac_start == o.frac_start,
            frac_end == o.frac_end,
            mant@ =~= cs@.subrange(o.p0 as int, o.int_end as int) + cs@.subrange(
                frac_start as int,
                j as int,
            ),
        decreases frac_end - j,
    {
        mant.push(cs[j]);
        j = j + 1;
    }
    proof {
        assert(mant@ =~= parts.int_digits + parts.frac_digits);
        assert(all_digits(mant@));
        assert(all_digits(parts.exp_digits)) by {
            assert(forall|k: int|
                0 <= k < parts.exp_digits.len() ==> parts.exp_digits[k] == cs@[o.exp_start
                    + k]);
        }
    }
    unit_by_parts(
        &mant,
        o.neg,
        o.exp_neg,
        &cs,
        o.exp_start,
        o.exp_end,
        frac_end - frac_start,
        Ghost(parts),
    )
}

/// Decides `num_parts_in_unit` for pieces laid out in `mant` (the mantissa
/// digits) and `cs[exp_start..exp_end]` (the exponent digits).
#[verifier::rlimit(80)]
#[verifier::loop_isolation(false)]
fn unit_by_parts(
    mant: &Vec<char>,
    neg: bool,
    exp_neg: bool,
    cs: &Vec<char>,
    exp_start: usize,
    exp_end: usize,
    frac_len: usize,
    Ghost(parts): Ghost<NumParts>,
) -> (r: bool)
    requires
        exp_start <= exp_end == cs@.len(),
        parts.int_digits + parts.frac_digits == mant@,
        all_digits(mant@),
        parts.neg == neg,
        parts.exp_neg == exp_neg,
        parts.exp_digits == cs@.subrange(exp_start as int, exp_end as int),
        all_digits(parts.exp_digits),
        parts.frac_digits.len() == frac_len,
    ensures
        r == num_parts_in_unit(parts),
{
    let ghost m = digits_val(parts.int_digits + parts.frac_digits);
    let mant_len: usize = mant.len();
    let zp: usize = scan_zeros(mant, 0);
    proof {
        assert(mant@.skip(0) =~= mant@);
    }
    if zp == mant_len {
        proof {
            lemma_digits_val_zero_iff(mant@);
        }
        return true;
    }
    // some digit of the mantissa is not zero, so the value is not zero
    proof {
        lemma_digits_val_zero_iff(mant@);
        assert(mant@[zp as int] != '0');
        assert(m != 0);
    }
    if neg {
        return false;
    }
    let ghost sig = mant@.skip(zp as int);
    let sig_len: usize = mant_len - zp;
    proof {
        lemma_digits_val_skip_zeros(mant@, zp as int);
        assert(sig.len() == sig_len);
        assert(sig[0] == mant@[zp as int]);
        assert(all_digits(sig)) by {
            assert(forall|k: int| 0 <= k < sig.len() ==> #[trigger] sig[k] == mant@[zp + k]);
        }
        lemma_digits_val_lower(sig);
        lemma_digits_val_upper(sig);
        lemma_pow10_literals();
    }
    // the exponent's value
    let ghost e_abs = digits_val(parts.exp_digits);
    let ezp: usize = scan_zeros(cs, exp_start);
    proof {
        let ezk = (ezp - exp_start) as int;
        assert(forall|k: int|
            0 <= k < parts.exp_digits.len() ==> #[trigger] parts.exp_digits[k] == cs@[exp_start
                + k]);
        lemma_digits_val_skip_zeros(parts.exp_digits, ezk);
        assert(parts.exp_digits.skip(ezk) =~= cs@.subrange(ezp as int, exp_end as int));
    }
    let esig_len: usize = exp_end - ezp;
    let ghost esig = parts.exp_digits.skip((ezp - exp_start) as int);
    if esig_len > 20 {
        // the exponent dwarfs every possible digit count
        proof {
            assert(esig[0] == cs@[ezp as int]);
            assert(cs@[ezp as int] != '0');
            assert(all_digits(esig)) by {
                assert(forall|k: int|
                    0 <= k < esig.len() ==> #[trigger] esig[k] == cs@[ezp + k]);
            }
            lemma_digits_val_lower(esig);
            lemma_pow_increases(10, 20, (esig_len - 1) as nat);
            assert(e_abs >= pow(10, 20));
            assert((mant_len as int) < pow(10, 20));
            if exp_neg {
                let k = parts.frac_digits.len() as int + e_abs as int;
                assert(k >= pow(10, 20));
                assert((sig_len as int) <= k);
                lemma_pow_increases(10, sig_len as nat, k as nat);
                assert(m < pow(10, sig_len as nat));
                assert(m <= pow(10, k as nat));
            } else {
                assert((parts.frac_digits.len() as int) - (e_abs as int) < 0);
            }
        }
        return exp_neg;
    }
    // the exponent's value fits comfortably in a machine word
    let mut ev: u128 = 0;
    let mut q: usize = ezp;
    proof {
        assert(cs@.subrange(ezp as int, ezp as int) =~= Seq::<char>::empty());
        vstd::arithmetic::power::lemma_pow0(10);
        assert forall|k: int| ezp <= k < exp_end implies is_digit(#[trigger] cs@[k]) by {
            assert(cs@[k] == parts.exp_digits[k - exp_start]);
        }
    }
    while q < exp_end
        invariant
            ezp <= q <= exp_end,
            exp_end - ezp <= 20,
            forall|k: int| ezp <= k < exp_end ==> is_digit(#[trigger] cs@[k]),
            ev == digits_val(cs@.subrange(ezp as int, q as int)),
            ev < pow(10, (q - ezp) as nat),
        decreases exp_end - q,
    {
        proof {
            lemma_pow_increases(10, (q - ezp) as nat, 20);
        }
        let d: u32 = (cs[q] as u32) - 48;
        ev = ev * 10 + (d as u128);
        proof {
            let t = cs@.subrange(ezp as int, q + 1);
            assert(t.drop_last() =~= cs@.subrange(ezp as int, q as int));
            assert(t.last() == cs@[q as int]);
            assert(pow(10, (q + 1 - ezp) as nat) == 10 * pow(10, (q - ezp) as nat)) by {
                reveal_with_fuel(pow, 2);
            }
        }
        q = q + 1;
    }
    proof {
        assert(cs@.subrange(ezp as int, exp_end as int) =~= esig);
        assert(ev == e_abs);
        lemma_pow_increases(10, (exp_end - ezp) as nat, 20);
        assert(ev < 100000000000000000000);
    }
    let k: i128 = if exp_neg {
        (frac_len as i128) + (ev as i128)
    } else {
        (frac_len as i128) - (ev as i128)
    };
    let li: i128 = sig_len as i128;
    proof {
        assert(k as int == parts.frac_digits.len() as int - (if parts.exp_neg {
            -(e_abs as int)
        } else {
            e_abs as int
        }));
    }
    if k >= li {
        proof {
            lemma_pow_increases(10, sig_len as nat, k as nat);
            assert(m < pow(10, sig_len as nat));
        }
        return true;
    }
    if k == li - 1 {
        // the value is one exactly when the digits read one then zeros
        proof {
            lemma_digits_val_pow_shape(sig);
        }
        let first: char = mant[zp];
        if first != '1' {
            proof {
                assert(m != pow(10, k as nat));
                assert(m > pow(10, k as nat));
            }
            return false;
        }
        let mut w: usize = zp + 1;
        while w < mant_len
            invariant
                zp + 1 <= w <= mant_len,
                forall|t: int| zp + 1 <= t < w ==> #[trigger] mant@[t] == '0',
            decreases mant_len - w,
        {
            if mant[w] != '0' {
                proof {
                    assert(sig[w - zp] == mant@[w as int]);
                    assert(m != pow(10, k as nat));
                    assert(m > pow(10, k as nat));
                }
                return false;
            }
            w = w + 1;
        }
        proof {
            assert(forall|t: int| 1 <= t < sig.len() ==> #[trigger] sig[t] == mant@[zp + t]);
            assert(sig[0] == '1');
            assert(m == pow(10, (sig_len - 1) as nat));
        }
        return true;
    }
    proof {
        // the integer part has at least two significant digits
        if k >= 0 {
            lemma_pow_increases(10, (k + 1) as nat, (sig_len - 1) as nat);
            assert(pow(10, (k + 1) as nat) == 10 * pow(10, k as nat)) by {
                reveal_with_fuel(pow, 2);
            }
            lemma_pow_positive(10, k as nat);
            assert(m >= pow(10, (sig_len - 1) as nat));
            assert(m > pow(10, k as nat));
        }
    }
    false
}

} // verus!
