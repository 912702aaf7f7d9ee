//! Numbers as text: decimal, signal reports and hexadecimal.
use vstd::prelude::*;
use vstd::string::*;

verus! {

/// The character of a digit; ten and above are upper-case letters.
pub open spec fn digit(d: int) -> char {
    if d < 10 {
        (48 + d) as char
    } else {
        (55 + d) as char
    }
}

/// The digits of a number in a base, without leading zeros.
pub open spec fn in_base(n: nat, base: nat) -> Seq<char>
    decreases n,
{
    if base < 2 || n < base {
        seq![digit(n as int)]
    } else {
        proof {
            assert(n / base < n) by (nonlinear_arith)
                requires
                    n >= base,
                    base >= 2,
            ;
        }
        in_base(n / base, base).push(digit((n % base) as int))
    }
}

/// The decimal digits of a number.
pub open spec fn decimal(n: nat) -> Seq<char> {
    in_base(n, 10)
}

/// A text filled up with zeros on the left to a width.
pub open spec fn zero_padded(s: Seq<char>, width: nat) -> Seq<char> {
    if s.len() < width {
        Seq::new((width - s.len()) as nat, |i: int| '0') + s
    } else {
        s
    }
}

/// A number with a sign and at least two digits, as in `+05` and `-12`.
pub open spec fn signed_report(n: int) -> Seq<char> {
    if n >= 0 {
        seq!['+'] + zero_padded(decimal(n as nat), 2)
    } else {
        seq!['-'] + zero_padded(decimal((-n) as nat), 2)
    }
}

fn digit_char(d: u64) -> (r: char)
    requires
        d < 36,
    ensures
        r == digit(d as int),
{
    if d < 10 {
        (48u8 + d as u8) as char
    } else {
        (55u8 + d as u8) as char
    }
}

/// A number in a base from two to thirty-six.
pub fn base_text(n: u64, base: u64) -> (r: String)
    requires
        2 <= base <= 36,
    ensures
        r@ == in_base(n as nat, base as nat),
        r@.len() >= 1,
    decreases n,
{
    let mut out = String::new();
    if n < base {
        out.push(digit_char(n));
        assert(out@ =~= seq![digit(n as int)]);
    } else {
        assert(n / base < n) by (nonlinear_arith)
            requires
                n >= base,
                base >= 2,
        ;
        out = base_text(n / base, base);
        out.push(digit_char(n % base));
    }
    out
}

/// A number in decimal.
pub fn decimal_text(n: u64) -> (r: String)
    ensures
        r@ == decimal(n as nat),
{
    base_text(n, 10)
}

/// A number in a base, filled up with zeros to a width.
pub fn padded_text(n: u64, base: u64, width: usize) -> (r: String)
    requires
        2 <= base <= 36,
    ensures
        r@ == zero_padded(in_base(n as nat, base as nat), width as nat),
{
    let body = base_text(n, base);
    let len = body.as_str().unicode_len();
    let mut out = String::new();
    let mut k: usize = len;
    while k < width
        invariant
            len <= k,
            len < width ==> k <= width,
            len >= width ==> k == len,
            body@.len() == len,
            out@ =~= Seq::new((k - len) as nat, |i: int| '0'),
        decreases width - k,
    {
        out.push('0');
        k += 1;
    }
    out.append(body.as_str());
    assert(out@ =~= zero_padded(body@, width as nat));
    out
}

/// A signal report: sign and at least two digits.
pub fn report_text(n: i32) -> (r: String)
    ensures
        r@ == signed_report(n as int),
{
    let mut out = String::new();
    if n >= 0 {
        out.push('+');
        out.append(padded_text(n as u64, 10, 2).as_str());
    } else {
        out.push('-');
        let m: i64 = -(n as i64);
        out.append(padded_text(m as u64, 10, 2).as_str());
    }
    assert(out@ =~= signed_report(n as int));
    out
}

proof fn lemma_digits(n: nat)
    ensures
        decimal(n).len() >= 1,
        forall|i: int| 0 <= i < decimal(n).len() ==> '0' <= #[trigger] decimal(n)[i] <= '9',
    decreases n,
{
    if n >= 10 {
        lemma_digits(n / 10);
        assert(decimal(n) == decimal(n / 10).push(digit((n % 10) as int)));
    } else {
        assert(decimal(n) =~= seq![digit(n as int)]);
    }
}

/// A report is a sign and two digits or more.
pub proof fn lemma_report_digits(n: int)
    ensures
        signed_report(n).len() >= 3,
        signed_report(n)[0] == (if n >= 0 { '+' } else { '-' }),
        forall|i: int|
            1 <= i < signed_report(n).len() ==> '0' <= #[trigger] signed_report(n)[i] <= '9',
{
    let m: nat = if n >= 0 { n as nat } else { (-n) as nat };
    lemma_digits(m);
    let s = signed_report(n);
    let t = zero_padded(decimal(m), 2);
    assert(s.drop_first() =~= t);
    assert forall|i: int| 1 <= i < s.len() implies '0' <= #[trigger] s[i] <= '9' by {
        assert(s[i] == t[i - 1]);
        if decimal(m).len() >= 2 {
            assert(t[i - 1] == decimal(m)[i - 1]);
        } else if i == 2 {
            assert(t[i - 1] == decimal(m)[0]);
        }
    }
}

/// A report of one or two digits is a sign and exactly two digits.
pub proof fn lemma_report_shape(n: int)
    requires
        -99 <= n <= 99,
    ensures
        signed_report(n).len() == 3,
        signed_report(n)[0] == (if n >= 0 { '+' } else { '-' }),
        '0' <= signed_report(n)[1] <= '9',
        '0' <= signed_report(n)[2] <= '9',
{
    let m: nat = if n >= 0 { n as nat } else { (-n) as nat };
    reveal_with_fuel(in_base, 2);
    if m < 10 {
        assert(decimal(m) =~= seq![digit(m as int)]);
        assert(zero_padded(decimal(m), 2) =~= seq!['0', digit(m as int)]);
    } else {
        assert(m / 10 < 10);
        assert(decimal(m) =~= seq![digit((m / 10) as int), digit((m % 10) as int)]);
        assert(zero_padded(decimal(m), 2) =~= decimal(m));
    }
}

/// The number that a digit stands for.
pub open spec fn digit_value(c: char) -> int {
    if '0' <= c <= '9' {
        c as u32 - '0' as u32
    } else {
        c as u32 - 'A' as u32 + 10
    }
}

/// The number that digits stand for in a base, the highest first.
pub open spec fn value_in(s: Seq<char>, base: int) -> int
    decreases s.len(),
{
    if s.len() == 0 {
        0
    } else {
        base * value_in(s.drop_last(), base) + digit_value(s.last())
    }
}

/// A number that was written in a base is read back from its digits, of which
/// the first is no zero but for the number zero.
pub proof fn law_number_reads_back(n: nat, base: nat)
    requires
        2 <= base <= 36,
    ensures
        value_in(in_base(n, base), base as int) == n,
        in_base(n, base).len() >= 1,
        n > 0 ==> in_base(n, base)[0] != '0',
        forall|i: int|
            0 <= i < in_base(n, base).len() ==> {
                ||| '0' <= #[trigger] in_base(n, base)[i] <= '9'
                ||| 'A' <= in_base(n, base)[i] <= 'Z'
            },
    decreases n,
{
    let s = in_base(n, base);
    if n < base {
        assert(s =~= seq![digit(n as int)]);
        assert(s.drop_last() =~= Seq::<char>::empty());
        assert(value_in(s.drop_last(), base as int) == 0);
        assert(digit_value(s.last()) == n);
        assert(base * 0 == 0) by (nonlinear_arith);
    } else {
        assert(n / base < n && n / base > 0 && n == base * (n / base) + n % base && n % base < base)
            by (nonlinear_arith)
            requires
                n >= base,
                base >= 2,
        ;
        law_number_reads_back(n / base, base);
        let d = digit((n % base) as int);
        assert(s == in_base(n / base, base).push(d));
        assert(s.drop_last() =~= in_base(n / base, base));
        assert(digit_value(d) == n % base);
        assert(s[0] == in_base(n / base, base)[0]);
        assert forall|i: int| 0 <= i < s.len() implies {
            ||| '0' <= #[trigger] s[i] <= '9'
            ||| 'A' <= s[i] <= 'Z'
        } by {
            if i < s.len() - 1 {
                assert(s[i] == in_base(n / base, base)[i]);
            }
        }
    }
}

/// Filling up with zeros changes neither the number nor its digits, and gives
/// the width unless there are more digits already.
pub proof fn law_padding_keeps_the_number(s: Seq<char>, width: nat, base: int)
    ensures
        value_in(zero_padded(s, width), base) == value_in(s, base),
        zero_padded(s, width).len() == if s.len() < width {
            width
        } else {
            s.len()
        },
        zero_padded(s, width).skip(zero_padded(s, width).len() - s.len()) == s,
    decreases s.len(), width,
{
    let t = zero_padded(s, width);
    assert(t.skip(t.len() - s.len()) =~= s);
    if s.len() < width {
        let zeros = Seq::new((width - s.len()) as nat, |i: int| '0');
        lemma_zeros_before(zeros, s, base);
    }
}

proof fn lemma_zeros_before(zeros: Seq<char>, s: Seq<char>, base: int)
    requires
        forall|i: int| 0 <= i < zeros.len() ==> zeros[i] == '0',
    ensures
        value_in(zeros + s, base) == value_in(s, base),
    decreases zeros.len() + s.len(),
{
    let t = zeros + s;
    if s.len() > 0 {
        lemma_zeros_before(zeros, s.drop_last(), base);
        assert(t.drop_last() =~= zeros + s.drop_last());
    } else if zeros.len() > 0 {
        let fewer = zeros.drop_last();
        lemma_zeros_before(fewer, s, base);
        assert(t.drop_last() =~= fewer + s);
        assert(base * 0 == 0) by (nonlinear_arith);
    } else {
        assert(t =~= s);
    }
}

/// A report is the sign of a number and its size in two digits or more; no
/// two numbers have one report.
pub proof fn law_report_reads_back(n: int)
    ensures
        ({
            let s = signed_report(n);
            let size = value_in(s.drop_first(), 10);
            &&& s.len() >= 3
            &&& s[0] == '+' || s[0] == '-'
            &&& n == if s[0] == '+' {
                size
            } else {
                -size
            }
            &&& n == 0 ==> s[0] == '+'
            &&& -99 <= n <= 99 ==> s.len() == 3
        }),
{
    let m: nat = if n >= 0 { n as nat } else { (-n) as nat };
    lemma_report_digits(n);
    law_number_reads_back(m, 10);
    law_padding_keeps_the_number(decimal(m), 2, 10);
    assert(signed_report(n).drop_first() =~= zero_padded(decimal(m), 2));
    if -99 <= n <= 99 {
        lemma_report_shape(n);
    }
}

} // verus!
