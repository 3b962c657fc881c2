//! Decimal literals: reading integers and two-place decimals from text and
//! writing them back.

use crate::text::{lemma_split_pair, lemma_split_plain, split, split_chars, views_of};
use vstd::prelude::*;

verus! {

/// Why a text is no two-place decimal.
#[derive(Clone, Copy, Debug, PartialEq, Eq, Structural)]
pub enum DecimalFault {
    /// The text is not made of digits around at most one point.
    Malformed,
    /// More than two digits follow the point.
    TooPrecise,
    /// The number does not fit in 64 bits.
    TooLarge,
}

/// Whether `c` is one of the ten decimal digits.
pub open spec fn is_digit(c: char) -> bool {
    0x30 <= c as u32 <= 0x39
}

/// The value of a decimal digit.
pub open spec fn digit_of(c: char) -> nat {
    (c as u32 - 0x30) as nat
}

/// The digit that stands for `d`, for `d` below ten.
pub open spec fn digit_char(d: nat) -> char {
    if d == 0 {
        '0'
    } else if d == 1 {
        '1'
    } else if d == 2 {
        '2'
    } else if d == 3 {
        '3'
    } else if d == 4 {
        '4'
    } else if d == 5 {
        '5'
    } else if d == 6 {
        '6'
    } else if d == 7 {
        '7'
    } else if d == 8 {
        '8'
    } else {
        '9'
    }
}

/// Whether `s` holds decimal digits only.
pub open spec fn all_digits(s: Seq<char>) -> bool {
    forall|i: int| 0 <= i < s.len() ==> is_digit(#[trigger] s[i])
}

/// The number that a run of digits denotes; the empty run denotes zero.
pub open spec fn digits_value(s: Seq<char>) -> nat
    decreases s.len(),
{
    if s.len() == 0 {
        0
    } else {
        digits_value(s.drop_last()) * 10 + digit_of(s.last())
    }
}

/// `s` without a leading plus sign.
pub open spec fn without_plus(s: Seq<char>) -> Seq<char> {
    if s.len() > 0 && s[0] == '+' {
        s.drop_first()
    } else {
        s
    }
}

/// What `s` denotes as an unsigned decimal literal: an optional plus sign,
/// then one or more digits. Nothing else is a literal.
pub open spec fn unsigned_literal(s: Seq<char>) -> Option<nat> {
    let body = without_plus(s);
    if body.len() > 0 && all_digits(body) {
        Some(digits_value(body))
    } else {
        None
    }
}

/// What `s` denotes as a signed decimal literal: an optional plus or minus
/// sign, then one or more digits.
pub open spec fn signed_literal(s: Seq<char>) -> Option<int> {
    if s.len() > 0 && s[0] == '-' {
        let body = s.drop_first();
        if body.len() > 0 && all_digits(body) {
            Some(-(digits_value(body) as int))
        } else {
            None
        }
    } else {
        match unsigned_literal(s) {
            Some(n) => Some(n as int),
            None => None,
        }
    }
}

/// The `usize` that `s` denotes, if it is an unsigned literal that fits.
pub open spec fn usize_literal(s: Seq<char>) -> Option<usize> {
    match unsigned_literal(s) {
        Some(n) => if n <= usize::MAX {
            Some(n as usize)
        } else {
            None
        },
        None => None,
    }
}

/// The `isize` that `s` denotes, if it is a signed literal that fits.
pub open spec fn isize_literal(s: Seq<char>) -> Option<isize> {
    match signed_literal(s) {
        Some(n) => if isize::MIN <= n <= isize::MAX {
            Some(n as isize)
        } else {
            None
        },
        None => None,
    }
}

/// The decimal digits of `n`, without leading zeros.
pub open spec fn decimal_text(n: nat) -> Seq<char>
    decreases n,
{
    if n < 10 {
        seq![digit_char(n)]
    } else {
        decimal_text(n / 10).push(digit_char(n % 10))
    }
}

/// The decimal digits of `n`, after a minus sign where `n` is negative.
pub open spec fn signed_text(n: int) -> Seq<char> {
    if n < 0 {
        seq!['-'] + decimal_text((-n) as nat)
    } else {
        decimal_text(n as nat)
    }
}

/// The text of a number consists of digits, does not start with a sign, and
/// denotes that number.
pub proof fn lemma_decimal_text(n: nat)
    ensures
        decimal_text(n).len() >= 1,
        all_digits(decimal_text(n)),
        digits_value(decimal_text(n)) == n,
        decimal_text(n)[0] != '+',
        decimal_text(n)[0] != '-',
    decreases n,
{
    if n < 10 {
        let t = decimal_text(n);
        assert(t.drop_last() =~= Seq::<char>::empty());
        assert(digits_value(t.drop_last()) == 0);
    } else {
        lemma_decimal_text(n / 10);
        let t = decimal_text(n);
        assert(t.drop_last() =~= decimal_text(n / 10));
        assert(t[0] == decimal_text(n / 10)[0]);
    }
}

/// Reading the text of a number gives the number back.
pub proof fn lemma_unsigned_round_trip(n: nat)
    ensures
        unsigned_literal(decimal_text(n)) == Some(n),
{
    lemma_decimal_text(n);
}

/// Reading the text of a signed number gives the number back.
pub proof fn lemma_signed_round_trip(n: int)
    ensures
        signed_literal(signed_text(n)) == Some(n),
{
    if n < 0 {
        let m = (-n) as nat;
        lemma_decimal_text(m);
        assert(signed_text(n).drop_first() =~= decimal_text(m));
    } else {
        lemma_decimal_text(n as nat);
    }
}

/// Whether `c` is a decimal digit.
pub fn char_is_digit(c: char) -> (b: bool)
    ensures
        b == is_digit(c),
{
    let n: u32 = c as u32;
    0x30 <= n && n <= 0x39
}

/// The value of the digit `c`.
pub fn digit_value(c: char) -> (d: u64)
    requires
        is_digit(c),
    ensures
        d == digit_of(c),
        d <= 9,
{
    let n: u32 = c as u32;
    (n - 0x30) as u64
}

/// The digit for `d`.
pub fn digit_for(d: u64) -> (c: char)
    requires
        d <= 9,
    ensures
        c == digit_char(d as nat),
{
    if d == 0 {
        '0'
    } else if d == 1 {
        '1'
    } else if d == 2 {
        '2'
    } else if d == 3 {
        '3'
    } else if d == 4 {
        '4'
    } else if d == 5 {
        '5'
    } else if d == 6 {
        '6'
    } else if d == 7 {
        '7'
    } else if d == 8 {
        '8'
    } else {
        '9'
    }
}

/// Reads the run of digits `v[from..]`. `None` where a character is no digit
/// or the number does not fit in 64 bits.
pub fn read_digits(v: &Vec<char>, from: usize) -> (r: Option<u64>)
    requires
        from <= v.len(),
    ensures
        r == (if all_digits(v@.skip(from as int)) && digits_value(v@.skip(from as int))
            <= u64::MAX {
            Some(digits_value(v@.skip(from as int)) as u64)
        } else {
            None
        }),
{
    let ghost body = v@.skip(from as int);
    let mut acc: u64 = 0;
    let mut fits = true;
    let mut i: usize = from;
    assert(body.take(0) =~= Seq::<char>::empty());
    while i < v.len()
        invariant
            from <= i <= v.len(),
            body == v@.skip(from as int),
            all_digits(body.take(i - from)),
            fits ==> acc == digits_value(body.take(i - from)),
            !fits ==> digits_value(body.take(i - from)) > u64::MAX,
        decreases v.len() - i,
    {
        let c = v[i];
        assert(body[i - from] == c);
        if !char_is_digit(c) {
            return None;
        }
        let d = digit_value(c);
        proof {
            let longer = body.take(i - from + 1);
            assert(longer.drop_last() =~= body.take(i - from));
            assert(longer.last() == c);
            assert forall|j: int| 0 <= j < longer.len() implies is_digit(#[trigger] longer[j]) by {
                if j < i - from {
                    assert(longer[j] == body.take(i - from)[j]);
                }
            }
        }
        if fits {
            if acc > (u64::MAX - d) / 10 {
                fits = false;
            } else {
                acc = acc * 10 + d;
            }
        }
        i += 1;
    }
    assert(body.take(i - from) =~= body);
    if fits {
        Some(acc)
    } else {
        None
    }
}

/// Reads an unsigned decimal literal.
pub fn parse_usize(v: &Vec<char>) -> (r: Option<usize>)
    ensures
        r == usize_literal(v@),
{
    let from: usize = if v.len() > 0 && v[0] == '+' {
        1
    } else {
        0
    };
    assert(without_plus(v@) =~= v@.skip(from as int));
    if from == v.len() {
        return None;
    }
    match read_digits(v, from) {
        Some(m) => {
            if m <= usize::MAX as u64 {
                Some(m as usize)
            } else {
                None
            }
        },
        None => None,
    }
}

/// Reads a signed decimal literal.
pub fn parse_isize(v: &Vec<char>) -> (r: Option<isize>)
    ensures
        r == isize_literal(v@),
{
    if v.len() > 0 && v[0] == '-' {
        assert(v@.drop_first() =~= v@.skip(1));
        if v.len() == 1 {
            return None;
        }
        match read_digits(v, 1) {
            Some(m) => {
                if m <= isize::MAX as u64 {
                    let p: isize = m as isize;
                    Some(-p)
                } else if m - 1 == isize::MAX as u64 {
                    Some(isize::MIN)
                } else {
                    None
                }
            },
            None => None,
        }
    } else {
        match parse_usize(v) {
            Some(m) => {
                if m <= isize::MAX as usize {
                    Some(m as isize)
                } else {
                    None
                }
            },
            None => None,
        }
    }
}

/// Appends the decimal digits of `n` to `out`.
pub fn push_decimal(out: &mut String, n: u64)
    ensures
        final(out)@ == old(out)@ + decimal_text(n as nat),
    decreases n,
{
    if n >= 10 {
        push_decimal(out, n / 10);
    }
    out.push(digit_for(n % 10));
    assert(out@ =~= old(out)@ + decimal_text(n as nat));
}

/// The decimal text of `n`, with a minus sign where it is negative.
pub fn format_isize(n: isize) -> (s: String)
    ensures
        s@ == signed_text(n as int),
{
    let mut s = String::new();
    if n < 0 {
        s.push('-');
        let m: u64 = if n == isize::MIN {
            (isize::MAX as u64) + 1
        } else {
            (-n) as u64
        };
        push_decimal(&mut s, m);
        assert(s@ =~= signed_text(n as int));
    } else {
        push_decimal(&mut s, n as u64);
        assert(s@ =~= signed_text(n as int));
    }
    s
}

/// The digit runs before and after the point of a plain decimal literal: an
/// optional plus sign, digits, and optionally a point with more digits. Either
/// run may be empty, not both.
pub open spec fn decimal_parts(s: Seq<char>) -> Option<(Seq<char>, Seq<char>)> {
    let pieces = split(without_plus(s), '.');
    if pieces.len() == 1 {
        if pieces[0].len() > 0 && all_digits(pieces[0]) {
            Some((pieces[0], Seq::<char>::empty()))
        } else {
            None
        }
    } else if pieces.len() == 2 {
        if all_digits(pieces[0]) && all_digits(pieces[1]) && pieces[0].len() + pieces[1].len() > 0 {
            Some((pieces[0], pieces[1]))
        } else {
            None
        }
    } else {
        None
    }
}

/// The hundredths that at most two digits after the point stand for.
pub open spec fn fraction_hundredths(frac: Seq<char>) -> nat {
    if frac.len() == 0 {
        0
    } else if frac.len() == 1 {
        digit_of(frac[0]) * 10
    } else {
        digit_of(frac[0]) * 10 + digit_of(frac[1])
    }
}

/// What `s` denotes in hundredths, as a decimal literal with at most two
/// digits after the point.
pub open spec fn hundredths_literal(s: Seq<char>) -> Result<nat, DecimalFault> {
    match decimal_parts(s) {
        None => Err(DecimalFault::Malformed),
        Some((whole, frac)) => if frac.len() > 2 {
            Err(DecimalFault::TooPrecise)
        } else {
            Ok(digits_value(whole) * 100 + fraction_hundredths(frac))
        },
    }
}

/// The shortest decimal text of `h` hundredths: the whole part, then a point
/// and one or two digits where the fraction is not zero.
pub open spec fn hundredths_text(h: nat) -> Seq<char> {
    let whole = decimal_text(h / 100);
    let tenths = digit_char((h % 100) / 10);
    let last = digit_char(h % 10);
    if h % 100 == 0 {
        whole
    } else if h % 10 == 0 {
        whole.push('.').push(tenths)
    } else {
        whole.push('.').push(tenths).push(last)
    }
}

/// Reading the text of a number of hundredths gives the number back.
pub proof fn lemma_hundredths_round_trip(h: nat)
    ensures
        hundredths_literal(hundredths_text(h)) == Ok::<nat, DecimalFault>(h),
{
    let whole = decimal_text(h / 100);
    lemma_decimal_text(h / 100);
    let t = hundredths_text(h);
    assert(t[0] == whole[0]);
    assert(without_plus(t) == t);
    assert forall|i: int| 0 <= i < whole.len() implies whole[i] != '.' by {
        assert(is_digit(whole[i]));
    }
    if h % 100 == 0 {
        lemma_split_plain(whole, '.');
    } else {
        let tenths = digit_char((h % 100) / 10);
        let last = digit_char(h % 10);
        let frac = if h % 10 == 0 {
            seq![tenths]
        } else {
            seq![tenths, last]
        };
        assert(t =~= whole.push('.') + frac);
        lemma_split_pair(whole, frac, '.');
        assert(all_digits(frac));
    }
}

/// Reads a decimal literal with at most two digits after the point, in
/// hundredths.
pub fn parse_hundredths(v: &Vec<char>) -> (r: Result<u64, DecimalFault>)
    ensures
        r == (match hundredths_literal(v@) {
            Ok(n) => if n <= u64::MAX {
                Ok(n as u64)
            } else {
                Err(DecimalFault::TooLarge)
            },
            Err(e) => Err(e),
        }),
{
    let body: Vec<char> = if v.len() > 0 && v[0] == '+' {
        crate::text::copy_range(v, 1, v.len())
    } else {
        crate::text::copy_range(v, 0, v.len())
    };
    assert(body@ =~= without_plus(v@));
    let pieces = split_chars(&body, '.');
    assert(views_of(pieces@).len() == pieces.len());
    if pieces.len() > 2 {
        return Err(DecimalFault::Malformed);
    }
    let whole = &pieces[0];
    assert(views_of(pieces@)[0] == whole@);
    assert(whole@.skip(0) =~= whole@);
    let mut hundredths: u64 = 0;
    let mut frac_len: usize = 0;
    if pieces.len() == 2 {
        let frac = &pieces[1];
        assert(views_of(pieces@)[1] == frac@);
        if !all_digits_exec(frac) {
            return Err(DecimalFault::Malformed);
        }
        frac_len = frac.len();
        if frac_len >= 1 && frac_len <= 2 {
            hundredths = digit_value(frac[0]) * 10;
            if frac_len == 2 {
                hundredths = hundredths + digit_value(frac[1]);
            }
        }
    }
    if (whole.len() == 0 && frac_len == 0) || !all_digits_exec(whole) {
        return Err(DecimalFault::Malformed);
    }
    if frac_len > 2 {
        return Err(DecimalFault::TooPrecise);
    }
    let units = read_digits(whole, 0);
    match units {
        Some(u) => {
            if u > (u64::MAX - hundredths) / 100 {
                Err(DecimalFault::TooLarge)
            } else {
                Ok(u * 100 + hundredths)
            }
        },
        None => Err(DecimalFault::TooLarge),
    }
}

/// Whether `v` holds digits only.
pub fn all_digits_exec(v: &Vec<char>) -> (b: bool)
    ensures
        b == all_digits(v@),
{
    let mut i: usize = 0;
    while i < v.len()
        invariant
            i <= v.len(),
            forall|j: int| 0 <= j < i ==> is_digit(#[trigger] v@[j]),
        decreases v.len() - i,
    {
        if !char_is_digit(v[i]) {
            return false;
        }
        i += 1;
    }
    true
}

/// The shortest decimal text of `h` hundredths.
pub fn format_hundredths(h: u64) -> (s: String)
    ensures
        s@ == hundredths_text(h as nat),
{
    let mut s = String::new();
    push_decimal(&mut s, h / 100);
    if h % 100 != 0 {
        s.push('.');
        s.push(digit_for((h % 100) / 10));
        if h % 10 != 0 {
            s.push(digit_for(h % 10));
        }
    }
    assert(s@ =~= hundredths_text(h as nat));
    s
}

} // verus!
