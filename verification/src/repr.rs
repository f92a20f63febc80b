//! Writing a double the way Python's `repr(float)` does, given its shortest
//! round-trip scientific form.
//!
//! A scientific form is an optional `-`, a mantissa of decimal digits with at
//! most a `.` after the first one, an `e`, and a decimal exponent with an
//! optional `-`. Its digits, read without the `.`, and its exponent are laid
//! out in scientific notation, with a signed exponent of at least two digits,
//! when the exponent is below -4 or at least 16, and in fixed notation
//! otherwise, where an integer value keeps one trailing `.0`.
use vstd::prelude::*;

verus! {

/// A decimal digit.
pub open spec fn is_digit(c: char) -> bool {
    '0' <= c && c <= '9'
}

/// The character of the digit `d` (below 10).
pub open spec fn digit_char(d: nat) -> char {
    if d == 0 {
        '0'
    } else if d == 1 {
        '1'
    } else if d == 2 {
        '2'
    } else if d == 3 {
        '3'
    } else if d == 4 {
        '4'
    } else if d == 5 {
        '5'
    } else if d == 6 {
        '6'
    } else if d == 7 {
        '7'
    } else if d == 8 {
        '8'
    } else {
        '9'
    }
}

/// The decimal digits of `n`, without leading zeros.
pub open spec fn decimal(n: nat) -> Seq<char>
    decreases n,
{
    if n < 10 {
        seq![digit_char(n)]
    } else {
        decimal(n / 10).push(digit_char(n % 10))
    }
}

/// The decimal digits of `n`, at least two of them.
pub open spec fn two_digits(n: nat) -> Seq<char> {
    if n < 10 {
        seq!['0'] + decimal(n)
    } else {
        decimal(n)
    }
}

/// `k` zeros.
pub open spec fn zeros(k: nat) -> Seq<char> {
    Seq::new(k, |i: int| '0')
}

/// Python's `repr` of the double whose sign is `negative`, whose shortest
/// round-trip digits are `digits` and whose decimal exponent (of the first
/// digit) is `exp`.
pub open spec fn python_repr(negative: bool, digits: Seq<char>, exp: int) -> Seq<char> {
    let sign = if negative {
        seq!['-']
    } else {
        Seq::<char>::empty()
    };
    if exp < -4 || exp >= 16 {
        let m = if digits.len() == 1 {
            digits
        } else {
            seq![digits[0], '.'] + digits.skip(1)
        };
        let mag = if exp < 0 {
            -exp
        } else {
            exp
        };
        sign + m + seq!['e', if exp < 0 {
            '-'
        } else {
            '+'
        }] + two_digits(mag as nat)
    } else {
        let decpt = exp + 1;
        let nd = digits.len();
        let body = if decpt <= 0 {
            seq!['0', '.'] + zeros((-decpt) as nat) + digits
        } else if decpt >= nd {
            digits + zeros((decpt - nd) as nat) + seq!['.', '0']
        } else {
            digits.take(decpt) + seq!['.'] + digits.skip(decpt)
        };
        sign + body
    }
}

/// The character of a digit.
fn digit_to_char(d: u32) -> (c: char)
    requires
        d < 10,
    ensures
        c == digit_char(d as nat),
{
    if d == 0 {
        '0'
    } else if d == 1 {
        '1'
    } else if d == 2 {
        '2'
    } else if d == 3 {
        '3'
    } else if d == 4 {
        '4'
    } else if d == 5 {
        '5'
    } else if d == 6 {
        '6'
    } else if d == 7 {
        '7'
    } else if d == 8 {
        '8'
    } else {
        '9'
    }
}

/// Append the decimal digits of `n`.
fn push_decimal(out: &mut Vec<char>, n: u32)
    ensures
        final(out)@ == old(out)@ + decimal(n as nat),
    decreases n,
{
    if n >= 10 {
        push_decimal(out, n / 10);
    }
    let ghost before = out@;
    out.push(digit_to_char(n % 10));
    proof {
        if n >= 10 {
            assert(out@ =~= old(out)@ + decimal((n / 10) as nat).push(digit_char((n % 10) as nat)));
        } else {
            assert(out@ =~= old(out)@ + decimal(n as nat));
        }
    }
}

/// Append `k` zeros.
fn push_zeros(out: &mut Vec<char>, k: usize)
    ensures
        final(out)@ == old(out)@ + zeros(k as nat),
{
    let mut i: usize = 0;
    while i < k
        invariant
            i <= k,
            out@ =~= old(out)@ + zeros(i as nat),
        decreases k - i,
    {
        out.push('0');
        i = i + 1;
    }
}

/// Append `v[a..b]`.
fn push_range(out: &mut Vec<char>, v: &Vec<char>, a: usize, b: usize)
    requires
        a <= b <= v@.len(),
    ensures
        final(out)@ == old(out)@ + v@.subrange(a as int, b as int),
{
    let mut i: usize = a;
    while i < b
        invariant
            a <= i <= b,
            b <= v@.len(),
            out@ =~= old(out)@ + v@.subrange(a as int, i as int),
        decreases b - i,
    {
        out.push(v[i]);
        i = i + 1;
    }
}

/// Lay out `digits` with sign `negative` and decimal exponent `exp` as
/// Python's `repr` writes a double.
pub fn python_repr_layout(negative: bool, digits: &Vec<char>, exp: i32) -> (r: Vec<char>)
    requires
        digits@.len() >= 1,
        forall|i: int| 0 <= i < digits@.len() ==> is_digit(#[trigger] digits@[i]),
    ensures
        r@ == python_repr(negative, digits@, exp as int),
{
    let mut out: Vec<char> = Vec::new();
    if negative {
        out.push('-');
    }
    let ghost sign = out@;
    let nd = digits.len();
    if exp < -4 || exp >= 16 {
        out.push(digits[0]);
        if nd > 1 {
            out.push('.');
            push_range(&mut out, digits, 1, nd);
        }
        out.push('e');
        out.push(if exp < 0 { '-' } else { '+' });
        let mag: u32 = if exp < 0 {
            (0i64 - exp as i64) as u32
        } else {
            exp as u32
        };
        if mag < 10 {
            out.push('0');
        }
        push_decimal(&mut out, mag);
        proof {
            let m = if nd == 1 {
                digits@
            } else {
                seq![digits@[0], '.'] + digits@.skip(1)
            };
            if nd == 1 {
                assert(seq![digits@[0]] =~= digits@);
            } else {
                assert(digits@.subrange(1, nd as int) =~= digits@.skip(1));
            }
            let sgn = if exp < 0 {
                '-'
            } else {
                '+'
            };
            assert(out@ =~= sign + m + seq!['e', sgn] + two_digits(mag as nat));
        }
    } else {
        let decpt: i64 = exp as i64 + 1;
        if decpt <= 0 {
            out.push('0');
            out.push('.');
            push_zeros(&mut out, (0 - decpt) as usize);
            push_range(&mut out, digits, 0, nd);
            assert(digits@.subrange(0, nd as int) =~= digits@);
            assert(out@ =~= sign + (seq!['0', '.'] + zeros((-decpt) as nat) + digits@));
        } else if decpt as usize >= nd {
            push_range(&mut out, digits, 0, nd);
            push_zeros(&mut out, decpt as usize - nd);
            out.push('.');
            out.push('0');
            assert(digits@.subrange(0, nd as int) =~= digits@);
            assert(out@ =~= sign + (digits@ + zeros((decpt - nd) as nat) + seq!['.', '0']));
        } else {
            let d = decpt as usize;
            push_range(&mut out, digits, 0, d);
            out.push('.');
            push_range(&mut out, digits, d, nd);
            assert(digits@.subrange(0, d as int) =~= digits@.take(d as int));
            assert(digits@.subrange(d as int, nd as int) =~= digits@.skip(d as int));
            assert(out@ =~= sign + (digits@.take(d as int) + seq!['.'] + digits@.skip(d as int)));
        }
    }
    out
}


/// Index of the first `c` in `t`, or the length of `t`.
pub open spec fn first_index(t: Seq<char>, c: char) -> nat
    decreases t.len(),
{
    if t.len() == 0 || t[0] == c {
        0
    } else {
        1 + first_index(t.drop_first(), c)
    }
}

/// `t` without its `.` characters.
pub open spec fn without_dots(t: Seq<char>) -> Seq<char>
    decreases t.len(),
{
    if t.len() == 0 {
        Seq::empty()
    } else if t.last() == '.' {
        without_dots(t.drop_last())
    } else {
        without_dots(t.drop_last()).push(t.last())
    }
}

/// The value of a string of decimal digits.
pub open spec fn digits_value(t: Seq<char>) -> int
    decreases t.len(),
{
    if t.len() == 0 {
        0
    } else {
        digits_value(t.drop_last()) * 10 + (t.last() as int - '0' as int)
    }
}

/// `10^k`.
pub open spec fn pow10(k: nat) -> nat
    decreases k,
{
    if k == 0 {
        1
    } else {
        10 * pow10((k - 1) as nat)
    }
}

/// A scientific form starts with `-` when its value is negative.
pub open spec fn sci_negative(s: Seq<char>) -> bool {
    s.len() > 0 && s[0] == '-'
}

/// A scientific form without its sign.
pub open spec fn sci_body(s: Seq<char>) -> Seq<char> {
    if sci_negative(s) {
        s.drop_first()
    } else {
        s
    }
}

/// The mantissa: what comes before the `e`.
pub open spec fn sci_mantissa(s: Seq<char>) -> Seq<char> {
    sci_body(s).take(first_index(sci_body(s), 'e') as int)
}

/// The exponent: what comes after the `e`.
pub open spec fn sci_exponent(s: Seq<char>) -> Seq<char> {
    sci_body(s).skip(first_index(sci_body(s), 'e') + 1int)
}

/// The digits of an exponent, without its sign.
pub open spec fn exponent_digits(t: Seq<char>) -> Seq<char> {
    if t.len() > 0 && t[0] == '-' {
        t.drop_first()
    } else {
        t
    }
}

/// The value of an exponent.
pub open spec fn exponent_value(t: Seq<char>) -> int {
    if t.len() > 0 && t[0] == '-' {
        -digits_value(t.drop_first())
    } else {
        digits_value(t)
    }
}

/// `s` is a scientific form: an optional `-`, a mantissa of digits and `.`
/// with at least one digit, an `e`, and an exponent of one to nine digits with
/// an optional `-`.
pub open spec fn is_scientific(s: Seq<char>) -> bool {
    let b = sci_body(s);
    let k = first_index(b, 'e');
    let ed = exponent_digits(sci_exponent(s));
    &&& k < b.len()
    &&& forall|i: int| 0 <= i < k ==> is_digit(#[trigger] b[i]) || b[i] == '.'
    &&& without_dots(sci_mantissa(s)).len() >= 1
    &&& 1 <= ed.len() <= 9
    &&& forall|i: int| 0 <= i < ed.len() ==> is_digit(#[trigger] ed[i])
}

/// Python's `repr` of the double whose scientific form is `s`.
pub open spec fn python_repr_of_scientific(s: Seq<char>) -> Seq<char> {
    python_repr(
        sci_negative(s),
        without_dots(sci_mantissa(s)),
        exponent_value(sci_exponent(s)),
    )
}

proof fn lemma_first_index_is(t: Seq<char>, c: char, k: int)
    requires
        0 <= k <= t.len(),
        forall|i: int| 0 <= i < k ==> #[trigger] t[i] != c,
        k == t.len() || t[k] == c,
    ensures
        first_index(t, c) == k,
    decreases k,
{
    if k > 0 {
        let d = t.drop_first();
        assert forall|i: int| 0 <= i < k - 1 implies #[trigger] d[i] != c by {
            assert(d[i] == t[i + 1]);
        }
        if k < t.len() {
            assert(d[k - 1] == t[k]);
        }
        lemma_first_index_is(d, c, k - 1);
    }
}

proof fn lemma_pow10_bound(k: nat)
    requires
        k <= 9,
    ensures
        pow10(k) <= 1_000_000_000,
    decreases k,
{
    reveal_with_fuel(pow10, 10);
    if k < 9 {
        lemma_pow10_mono(k);
    }
}

proof fn lemma_pow10_mono(k: nat)
    requires
        k <= 9,
    ensures
        pow10(k) <= pow10(9),
    decreases 9 - k,
{
    if k < 9 {
        lemma_pow10_mono(k + 1);
    }
}

/// Write the double whose shortest round-trip scientific form is `sci` as
/// Python's `repr` does.
pub fn python_repr_of(sci: &Vec<char>) -> (r: Vec<char>)
    requires
        is_scientific(sci@),
    ensures
        r@ == python_repr_of_scientific(sci@),
{
    let n = sci.len();
    let neg = n > 0 && sci[0] == '-';
    let start: usize = if neg {
        1
    } else {
        0
    };
    let ghost b = sci_body(sci@);
    assert(b =~= sci@.skip(start as int));
    let k = find_e(sci, start);
    let ghost mant = sci_mantissa(sci@);
    let mut digits: Vec<char> = Vec::new();
    let mut i = start;
    while i < k
        invariant
            start <= i <= k,
            k < n,
            n == sci@.len(),
            b == sci@.skip(start as int),
            mant == b.take(k - start),
            forall|q: int| 0 <= q < k - start ==> is_digit(#[trigger] b[q]) || b[q] == '.',
            digits@ == without_dots(mant.take(i - start)),
            forall|q: int| 0 <= q < digits@.len() ==> is_digit(#[trigger] digits@[q]),
        decreases k - i,
    {
        let c = sci[i];
        proof {
            assert(mant.take(i - start + 1).drop_last() =~= mant.take(i - start));
            assert(mant.take(i - start + 1).last() == c);
            assert(b[i - start] == c);
        }
        if c != '.' {
            digits.push(c);
        }
        i = i + 1;
    }
    assert(mant.take(k - start) =~= mant);
    let ghost ex = sci_exponent(sci@);
    let ghost ed = exponent_digits(ex);
    assert(ex =~= sci@.skip(k + 1));
    let eneg = k + 1 < n && sci[k + 1] == '-';
    let j0: usize = if eneg {
        k + 2
    } else {
        k + 1
    };
    assert(ed =~= sci@.skip(j0 as int));
    let mut val: u64 = 0;
    let mut j = j0;
    while j < n
        invariant
            j0 <= j <= n,
            n == sci@.len(),
            ed == sci@.skip(j0 as int),
            ed.len() <= 9,
            forall|q: int| 0 <= q < ed.len() ==> is_digit(#[trigger] ed[q]),
            val == digits_value(ed.take(j - j0)),
            val < pow10((j - j0) as nat),
        decreases n - j,
    {
        let c = sci[j];
        proof {
            assert(ed[j - j0] == c);
            assert(ed.take(j - j0 + 1).drop_last() =~= ed.take(j - j0));
            assert(ed.take(j - j0 + 1).last() == c);
            lemma_pow10_bound((j - j0) as nat);
        }
        val = val * 10 + (c as u32 - '0' as u32) as u64;
        j = j + 1;
    }
    assert(ed.take(n - j0) =~= ed);
    proof {
        lemma_pow10_bound(ed.len());
    }
    let exp: i32 = if eneg {
        -(val as i32)
    } else {
        val as i32
    };
    python_repr_layout(neg, &digits, exp)
}


/// Position of the first `e` at or after `start`, or the length.
fn find_e(sci: &Vec<char>, start: usize) -> (k: usize)
    requires
        start <= sci@.len(),
    ensures
        start <= k <= sci@.len(),
        first_index(sci@.skip(start as int), 'e') == k - start,
{
    let n = sci.len();
    let ghost b = sci@.skip(start as int);
    let mut k = start;
    while k < n && sci[k] != 'e'
        invariant
            start <= k <= n,
            n == sci@.len(),
            forall|i: int| start <= i < k ==> #[trigger] sci@[i] != 'e',
        decreases n - k,
    {
        k = k + 1;
    }
    proof {
        assert forall|i: int| 0 <= i < k - start implies #[trigger] b[i] != 'e' by {
            assert(b[i] == sci@[start + i]);
        }
        if k < n {
            assert(b[k - start] == sci@[k as int]);
        }
        lemma_first_index_is(b, 'e', k - start);
    }
    k
}

/// Whether `sci[start..k]` holds only digits and `.`, and at least one digit.
fn check_mantissa(sci: &Vec<char>, start: usize, k: usize) -> (r: bool)
    requires
        start <= k <= sci@.len(),
    ensures
        r == ((forall|q: int| 0 <= q < k - start ==> is_digit(#[trigger] sci@.subrange(start as int, k as int)[q])
            || sci@.subrange(start as int, k as int)[q] == '.') && without_dots(
            sci@.subrange(start as int, k as int),
        ).len() >= 1),
{
    let ghost mant = sci@.subrange(start as int, k as int);
    let mut ndigits: usize = 0;
    let mut i = start;
    while i < k
        invariant
            start <= i <= k,
            k <= sci@.len(),
            mant == sci@.subrange(start as int, k as int),
            forall|q: int| 0 <= q < i - start ==> is_digit(#[trigger] mant[q]) || mant[q] == '.',
            ndigits == without_dots(mant.take(i - start)).len(),
            ndigits <= i - start,
        decreases k - i,
    {
        let c = sci[i];
        proof {
            assert(mant.take(i - start + 1).drop_last() =~= mant.take(i - start));
            assert(mant.take(i - start + 1).last() == c);
            assert(mant[i - start] == c);
        }
        if !(('0' <= c && c <= '9') || c == '.') {
            return false;
        }
        if c != '.' {
            ndigits = ndigits + 1;
        }
        i = i + 1;
    }
    assert(mant.take(k - start) =~= mant);
    ndigits >= 1
}

/// Whether `sci[j0..]` is one to nine digits.
fn check_exponent_digits(sci: &Vec<char>, j0: usize) -> (r: bool)
    requires
        j0 <= sci@.len(),
    ensures
        r == (1 <= sci@.skip(j0 as int).len() <= 9 && forall|q: int|
            0 <= q < sci@.skip(j0 as int).len() ==> is_digit(#[trigger] sci@.skip(j0 as int)[q])),
{
    let n = sci.len();
    let ghost ed = sci@.skip(j0 as int);
    if n - j0 < 1 || n - j0 > 9 {
        return false;
    }
    let mut j = j0;
    while j < n
        invariant
            j0 <= j <= n,
            n == sci@.len(),
            ed == sci@.skip(j0 as int),
            forall|q: int| 0 <= q < j - j0 ==> is_digit(#[trigger] ed[q]),
        decreases n - j,
    {
        let c = sci[j];
        assert(ed[j - j0] == c);
        if !('0' <= c && c <= '9') {
            return false;
        }
        j = j + 1;
    }
    true
}

/// Whether `sci` is a scientific form that `python_repr_of` accepts.
pub fn is_scientific_form(sci: &Vec<char>) -> (r: bool)
    ensures
        r == is_scientific(sci@),
{
    let n = sci.len();
    let neg = n > 0 && sci[0] == '-';
    let start: usize = if neg {
        1
    } else {
        0
    };
    let ghost b = sci_body(sci@);
    assert(b =~= sci@.skip(start as int));
    let k = find_e(sci, start);
    if k == n {
        return false;
    }
    let ghost mant = sci_mantissa(sci@);
    assert(mant =~= sci@.subrange(start as int, k as int));
    assert forall|q: int| 0 <= q < k - start implies #[trigger] b[q] == mant[q] by {}
    let mant_ok = check_mantissa(sci, start, k);
    let ghost ex = sci_exponent(sci@);
    assert(ex =~= sci@.skip(k + 1));
    let eneg = k + 1 < n && sci[k + 1] == '-';
    let j0: usize = if eneg {
        k + 2
    } else {
        k + 1
    };
    assert(exponent_digits(ex) =~= sci@.skip(j0 as int));
    let exp_ok = check_exponent_digits(sci, j0);
    mant_ok && exp_ok
}

} // verus!
