//! Decimal numbers: reading a signal level and writing it out.

use crate::text::chars_of;
use vstd::prelude::*;

verus! {

/// Whether `c` is one of the ten ASCII digits.
pub open spec fn is_digit(c: char) -> bool {
    '0' <= c <= '9'
}

/// Whether `s` is made of ASCII digits only.
pub open spec fn all_digits(s: Seq<char>) -> bool {
    forall|i: int| 0 <= i < s.len() ==> is_digit(#[trigger] s[i])
}

/// Whether `s` is made of ASCII digits only.
pub fn only_digits(s: &str) -> (r: bool)
    ensures
        r == all_digits(s@),
{
    let cs: Vec<char> = chars_of(s);
    let mut i: usize = 0;
    while i < cs.len()
        invariant
            i <= cs.len(),
            cs@ == s@,
            forall|j: int| 0 <= j < i ==> is_digit(#[trigger] s@[j]),
        decreases cs.len() - i,
    {
        if !('0' <= cs[i] && cs[i] <= '9') {
            assert(!is_digit(s@[i as int]));
            return false;
        }
        i += 1;
    }
    true
}

/// The number that a string of digits denotes in base ten.
pub open spec fn digits_value(s: Seq<char>) -> int
    decreases s.len(),
{
    if s.len() == 0 {
        0
    } else {
        digits_value(s.drop_last()) * 10 + (s.last() as int - '0' as int)
    }
}

/// The number that `s` denotes: an optional sign and at least one digit, with a
/// value in the range of `i32`.
pub open spec fn i32_of(s: Seq<char>) -> Option<i32> {
    let negative = s.len() > 0 && s[0] == '-';
    let signed = negative || s.len() > 0 && s[0] == '+';
    let digits = if signed {
        s.skip(1)
    } else {
        s
    };
    let value = if negative {
        -digits_value(digits)
    } else {
        digits_value(digits)
    };
    if digits.len() > 0 && all_digits(digits) && i32::MIN <= value <= i32::MAX {
        Some(value as i32)
    } else {
        None
    }
}

/// More digits never make a number smaller.
proof fn lemma_digits_grow(s: Seq<char>, k: int)
    requires
        all_digits(s),
        0 <= k <= s.len(),
    ensures
        0 <= digits_value(s.take(k)) <= digits_value(s),
    decreases s.len(),
{
    if s.len() > 0 {
        assert forall|i: int| 0 <= i < s.len() - 1 implies is_digit(
            #[trigger] s.drop_last()[i],
        ) by {
            assert(is_digit(s[i]));
        }
    }
    if k == s.len() {
        assert(s.take(k) =~= s);
        if k > 0 {
            lemma_digits_grow(s.drop_last(), k - 1);
            assert(is_digit(s[k - 1]));
        }
    } else {
        lemma_digits_grow(s.drop_last(), k);
        assert(s.drop_last().take(k) =~= s.take(k));
        assert(is_digit(s[s.len() - 1]));
    }
}

/// Reads the number that `s` denotes.
pub fn parse_i32(s: &str) -> (r: Option<i32>)
    ensures
        r == i32_of(s@),
{
    let cs: Vec<char> = chars_of(s);
    let negative: bool = cs.len() > 0 && cs[0] == '-';
    let signed: bool = negative || (cs.len() > 0 && cs[0] == '+');
    let start: usize = if signed {
        1
    } else {
        0
    };
    let ghost digits = s@.skip(start as int);
    proof {
        assert(s@.skip(0) =~= s@);
    }
    if start == cs.len() {
        return None;
    }
    let limit: u64 = if negative {
        2147483648
    } else {
        2147483647
    };
    let mut value: u64 = 0;
    let mut i: usize = start;
    while i < cs.len()
        invariant
            start <= i <= cs.len(),
            cs@ == s@,
            digits == s@.skip(start as int),
            digits == (if signed {
                s@.skip(1)
            } else {
                s@
            }),
            negative == (s@.len() > 0 && s@[0] == '-'),
            signed == (negative || s@.len() > 0 && s@[0] == '+'),
            limit == (if negative {
                2147483648
            } else {
                2147483647int
            }),
            all_digits(digits.take(i - start)),
            value == digits_value(digits.take(i - start)),
            value <= limit,
        decreases cs.len() - i,
    {
        let c: char = cs[i];
        proof {
            assert(digits[i - start] == c);
        }
        if !('0' <= c && c <= '9') {
            return None;
        }
        let ghost old_value = value;
        value = value * 10 + (c as u64 - '0' as u64);
        proof {
            let now = digits.take(i - start + 1);
            assert(now.drop_last() =~= digits.take(i - start));
            assert forall|j: int| 0 <= j < now.len() implies is_digit(#[trigger] now[j]) by {
                if j < i - start {
                    assert(is_digit(digits.take(i - start)[j]));
                }
            }
        }
        if value > limit {
            proof {
                if all_digits(digits) {
                    lemma_digits_grow(digits, i - start + 1);
                }
            }
            return None;
        }
        i += 1;
    }
    proof {
        assert(digits.take(digits.len() as int) =~= digits);
    }
    if negative {
        Some((-(value as i64)) as i32)
    } else {
        Some(value as i32)
    }
}

/// The digit character for `d`.
pub open spec fn digit_char(d: int) -> char {
    (d + '0' as int) as char
}

/// The decimal digits of `n`, without leading zeros.
pub open spec fn nat_text(n: nat) -> Seq<char>
    decreases n,
{
    if n < 10 {
        seq![digit_char(n as int)]
    } else {
        nat_text(n / 10).push(digit_char((n % 10) as int))
    }
}

/// `n` in decimal, with a minus sign where it is negative.
pub open spec fn decimal(n: int) -> Seq<char> {
    if n < 0 {
        seq!['-'] + nat_text((-n) as nat)
    } else {
        nat_text(n as nat)
    }
}

/// The text of one digit.
fn digit_text(d: u32) -> (r: &'static str)
    requires
        d < 10,
    ensures
        r@ == seq![digit_char(d as int)],
{
    proof {
        reveal_strlit("0");
        reveal_strlit("1");
        reveal_strlit("2");
        reveal_strlit("3");
        reveal_strlit("4");
        reveal_strlit("5");
        reveal_strlit("6");
        reveal_strlit("7");
        reveal_strlit("8");
        reveal_strlit("9");
    }
    match d {
        0 => "0",
        1 => "1",
        2 => "2",
        3 => "3",
        4 => "4",
        5 => "5",
        6 => "6",
        7 => "7",
        8 => "8",
        _ => "9",
    }
}

/// Appends the decimal digits of `n`.
fn append_nat(out: &mut String, n: u32)
    ensures
        final(out)@ == old(out)@ + nat_text(n as nat),
    decreases n,
{
    if n >= 10 {
        append_nat(out, n / 10);
    }
    out.append(digit_text(n % 10));
    proof {
        if n >= 10 {
            assert(old(out)@ + nat_text((n / 10) as nat) + seq![digit_char((n % 10) as int)]
                =~= old(out)@ + nat_text(n as nat));
        }
    }
}

/// Appends `n` in decimal.
pub fn append_i32(out: &mut String, n: i32)
    ensures
        final(out)@ == old(out)@ + decimal(n as int),
{
    if n < 0 {
        proof {
            reveal_strlit("-");
        }
        out.append("-");
        append_nat(out, (-(n as i64)) as u32);
        proof {
            assert("-"@ =~= seq!['-']);
            assert(out@ =~= old(out)@ + decimal(n as int));
        }
    } else {
        append_nat(out, n as u32);
    }
}

/// The digits of a number denote it.
proof fn lemma_nat_text(n: nat)
    ensures
        nat_text(n).len() > 0,
        all_digits(nat_text(n)),
        digits_value(nat_text(n)) == n,
    decreases n,
{
    let t = nat_text(n);
    if n < 10 {
        assert(t.drop_last() =~= Seq::<char>::empty());
        assert(digits_value(t.drop_last()) == 0);
    } else {
        lemma_nat_text(n / 10);
        assert(t.drop_last() =~= nat_text(n / 10));
        assert forall|i: int| 0 <= i < t.len() implies is_digit(#[trigger] t[i]) by {
            if i < t.len() - 1 {
                assert(is_digit(nat_text(n / 10)[i]));
            }
        }
    }
}

/// Reading back what was written gives the number again.
pub proof fn law_decimal_read_back(n: i32)
    ensures
        i32_of(decimal(n as int)) == Some(n),
{
    let s = decimal(n as int);
    if n < 0 {
        lemma_nat_text((-n) as nat);
        assert(s.skip(1) =~= nat_text((-n) as nat));
    } else {
        lemma_nat_text(n as nat);
        assert(is_digit(s[0]));
    }
}

/// How numbers are read.  One digit counts for itself; a digit behind a number makes ten times
/// the number and the digit; a minus sign in front makes the negative, a plus sign nothing.
/// `s` is any number without a sign, `v` its value, and `c` the digit.
pub proof fn law_numbers_read(s: Seq<char>, v: i32, c: char)
    requires
        '0' <= c <= '9',
        i32_of(s) == Some(v),
        s[0] != '-',
        s[0] != '+',
    ensures
        i32_of(seq![c]) == Some((c as int - '0' as int) as i32),
        v >= 0,
        10 * v + (c as int - '0' as int) <= i32::MAX ==> i32_of(s.push(c)) == Some(
            (10 * v + (c as int - '0' as int)) as i32,
        ),
        10 * v + (c as int - '0' as int) > i32::MAX ==> i32_of(s.push(c)) is None,
        i32_of(seq!['-'] + s) == Some((-v) as i32),
        i32_of(seq!['+'] + s) == Some(v),
{
    let one = seq![c];
    assert(one.drop_last() =~= Seq::<char>::empty());
    assert(digits_value(one.drop_last()) == 0);
    assert(digits_value(one) == c as int - '0' as int);
    assert(all_digits(one));
    assert(all_digits(s));
    lemma_digits_grow(s, s.len() as int);
    assert(s.take(s.len() as int) =~= s);
    let t = s.push(c);
    assert(t.drop_last() =~= s);
    assert forall|i: int| 0 <= i < t.len() implies is_digit(#[trigger] t[i]) by {
        if i < s.len() {
            assert(is_digit(s[i]));
        }
    }
    assert((seq!['-'] + s).skip(1) =~= s);
    assert((seq!['+'] + s).skip(1) =~= s);
}

/// What is a number: at least one digit behind a sign, if there is one, and nothing but digits
/// there.
pub proof fn law_numbers_are_digits(s: Seq<char>)
    requires
        i32_of(s) is Some,
    ensures
        s.len() > 0,
        s[0] == '-' || s[0] == '+' || '0' <= s[0] <= '9',
        s[0] == '-' || s[0] == '+' ==> s.len() > 1,
        forall|i: int| 0 < i < s.len() ==> '0' <= #[trigger] s[i] <= '9',
{
    if s[0] == '-' || s[0] == '+' {
        let digits = s.skip(1);
        assert forall|i: int| 0 < i < s.len() implies '0' <= #[trigger] s[i] <= '9' by {
            assert(is_digit(digits[i - 1]));
        }
    } else {
        assert(is_digit(s[0]));
        assert forall|i: int| 0 < i < s.len() implies '0' <= #[trigger] s[i] <= '9' by {
            assert(is_digit(s[i]));
        }
    }
}

/// How numbers are written: a single digit as its character, a larger number as a tenth of it
/// and its last digit, a negative one as its opposite with a minus sign in front.
pub proof fn law_numbers_written(n: nat, d: nat)
    requires
        d <= 9,
    ensures
        decimal(d as int) == seq![('0' as int + d) as char],
        n > 0 ==> decimal((10 * n + d) as int) == decimal(n as int).push(
            ('0' as int + d) as char,
        ),
        n > 0 ==> decimal(-n) == seq!['-'] + decimal(n as int),
{
    if n > 0 {
        let m = (10 * n + d) as nat;
        assert(m / 10 == n && m % 10 == d);
    }
}

/// Digits are the ten ASCII ones.
pub proof fn law_digits(s: Seq<char>)
    ensures
        all_digits(s) <==> forall|i: int| 0 <= i < s.len() ==> '0' <= #[trigger] s[i] <= '9',
{
    if forall|i: int| 0 <= i < s.len() ==> '0' <= #[trigger] s[i] <= '9' {
        assert forall|i: int| 0 <= i < s.len() implies is_digit(#[trigger] s[i]) by {}
    }
    if all_digits(s) {
        assert forall|i: int| 0 <= i < s.len() implies '0' <= #[trigger] s[i] <= '9' by {
            assert(is_digit(s[i]));
        }
    }
}

/// Where numbers end.  `s` is a text of digits.  Too large a number stays too large with one
/// more digit; behind a minus sign the same texts are numbers, and one more: that of the least
/// `i32`, whose opposite is too large.
pub proof fn law_numbers_end(s: Seq<char>, c: char)
    requires
        s.len() > 0,
        forall|i: int| 0 <= i < s.len() ==> '0' <= #[trigger] s[i] <= '9',
        '0' <= c <= '9',
    ensures
        i32_of(s) is None ==> i32_of(s.push(c)) is None,
        i32_of(seq!['-'] + s) matches Some(w) ==> w <= 0 && (w > i32::MIN ==> i32_of(s) == Some(
            (-w) as i32,
        )),
        i32_of(seq!['-'] + s) == Some(i32::MIN) ==> i32_of(s) is None && s.last() == '8' && i32_of(
            s.drop_last(),
        ) == Some(214748364i32),
{
    law_digits(s);
    lemma_digits_grow(s, s.len() as int);
    assert(s.take(s.len() as int) =~= s);
    let t = s.push(c);
    law_digits(t);
    assert forall|i: int| 0 <= i < t.len() implies '0' <= #[trigger] t[i] <= '9' by {
        if i < s.len() {
            assert('0' <= s[i] <= '9');
        }
    }
    assert(t.drop_last() =~= s);
    assert((seq!['-'] + s).skip(1) =~= s);
    assert('0' <= s[0] <= '9');
    assert('0' <= s[s.len() - 1] <= '9');
    let init = s.drop_last();
    assert(all_digits(init)) by {
        assert forall|i: int| 0 <= i < init.len() implies is_digit(#[trigger] init[i]) by {
            assert('0' <= s[i] <= '9');
        }
    }
    if i32_of(seq!['-'] + s) == Some(i32::MIN) {
        assert(-digits_value(s) == i32::MIN);
        assert(digits_value(s) == 10 * digits_value(init) + (s.last() as int - '0' as int));
        assert(0 <= s.last() as int - '0' as int <= 9);
        assert(digits_value(init) == 214748364);
        if init.len() == 0 {
            assert(digits_value(init) == 0);
        }
        assert(init[0] == s[0]);
    }
}

} // verus!
