//! Decimal text of integers: writing them as `Display` does and reading them
//! back as `str::parse` does.

use vstd::prelude::*;
use vstd::string::*;
use crate::text::chars_of;

verus! {

/// `c` is one of the ASCII digits `0` to `9`.
pub open spec fn is_digit(c: char) -> bool {
    48 <= (c as u32) <= 57
}

/// The value of the ASCII digit `c`.
pub open spec fn digit_value(c: char) -> nat {
    ((c as u32) - 48) as nat
}

/// The ASCII digit whose value is `d` (for `d < 10`).
pub open spec fn digit_char(d: nat) -> char {
    (d + 48) as char
}

/// The decimal digits of `n`, most significant first, without leading zeros.
pub open spec fn decimal(n: nat) -> Seq<char>
    decreases n,
{
    if n < 10 {
        seq![digit_char(n)]
    } else {
        decimal(n / 10).push(digit_char(n % 10))
    }
}

/// The decimal text of the integer `x`: its digits, after a `-` where it is
/// negative.
pub open spec fn signed_decimal(x: int) -> Seq<char> {
    if x < 0 {
        seq!['-'] + decimal((-x) as nat)
    } else {
        decimal(x as nat)
    }
}

/// `s` is made of digits only.
pub open spec fn all_digits(s: Seq<char>) -> bool {
    forall|i: int| 0 <= i < s.len() ==> is_digit(#[trigger] s[i])
}

/// The number that the digits `s` spell, most significant first.
pub open spec fn digits_value(s: Seq<char>) -> nat
    decreases s.len(),
{
    if s.len() == 0 {
        0
    } else {
        digits_value(s.drop_last()) * 10 + digit_value(s.last())
    }
}

/// The number that `s` spells as an unsigned decimal: an optional `+`, then
/// at least one digit and nothing else.
pub open spec fn unsigned_text_value(s: Seq<char>) -> Option<nat> {
    let body = if s.len() > 0 && s[0] == '+' {
        s.drop_first()
    } else {
        s
    };
    if body.len() > 0 && all_digits(body) {
        Some(digits_value(body))
    } else {
        None
    }
}

/// The number that `s` spells as a signed decimal: an optional `+` or `-`,
/// then at least one digit and nothing else.
pub open spec fn signed_text_value(s: Seq<char>) -> Option<int> {
    if s.len() > 0 && s[0] == '-' {
        let body = s.drop_first();
        if body.len() > 0 && all_digits(body) {
            Some(-(digits_value(body) as int))
        } else {
            None
        }
    } else {
        match unsigned_text_value(s) {
            Some(v) => Some(v as int),
            None => None,
        }
    }
}

/// What `str::parse::<usize>` gives for `s`.
pub open spec fn parse_usize_spec(s: Seq<char>) -> Option<usize> {
    match unsigned_text_value(s) {
        Some(v) => if v <= usize::MAX {
            Some(v as usize)
        } else {
            None
        },
        None => None,
    }
}

/// What `str::parse::<i32>` gives for `s`.
pub open spec fn parse_i32_spec(s: Seq<char>) -> Option<i32> {
    match signed_text_value(s) {
        Some(v) => if i32::MIN <= v <= i32::MAX {
            Some(v as i32)
        } else {
            None
        },
        None => None,
    }
}

proof fn lemma_digit_char(d: nat)
    requires
        d < 10,
    ensures
        is_digit(digit_char(d)),
        digit_value(digit_char(d)) == d,
{
    assert((d + 48) as char as u32 == d + 48);
}

/// Reading the decimal text of a number gives the number back.
pub proof fn lemma_decimal_roundtrip(n: nat)
    ensures
        all_digits(decimal(n)),
        decimal(n).len() > 0,
        digits_value(decimal(n)) == n,
    decreases n,
{
    lemma_digit_char(n % 10);
    let s = decimal(n);
    if n >= 10 {
        lemma_decimal_roundtrip(n / 10);
        assert(s.drop_last() =~= decimal(n / 10));
        assert(s.last() == digit_char(n % 10));
        assert(digits_value(s) == (n / 10) * 10 + n % 10);
    } else {
        assert(s.drop_last() =~= Seq::<char>::empty());
        assert(digits_value(s.drop_last()) == 0);
    }
}

/// Writing a number in decimal and reading it as `str::parse::<usize>` does
/// gives the number back.
pub proof fn law_usize_text_roundtrip(n: usize)
    ensures
        parse_usize_spec(decimal(n as nat)) == Some(n),
{
    lemma_decimal_roundtrip(n as nat);
}

/// Writing an `i32` as `Display` does and reading it as `str::parse::<i32>`
/// does gives it back.
pub proof fn law_i32_text_roundtrip(x: i32)
    ensures
        parse_i32_spec(signed_decimal(x as int)) == Some(x),
{
    if x < 0 {
        lemma_decimal_roundtrip((-x) as nat);
        assert((seq!['-'] + decimal((-x) as nat)).drop_first() =~= decimal((-x) as nat));
    } else {
        lemma_decimal_roundtrip(x as nat);
    }
}

/// The value of the digits `cs[start..]`, where they are all digits, there is
/// at least one, and the value is at most `cap`.
fn read_digits(cs: &Vec<char>, start: usize, cap: u64) -> (res: Option<u64>)
    requires
        start <= cs@.len(),
    ensures
        ({
            let body = cs@.skip(start as int);
            match res {
                Some(v) => body.len() > 0 && all_digits(body) && v == digits_value(body) && v <= cap,
                None => !(body.len() > 0 && all_digits(body) && digits_value(body) <= cap),
            }
        }),
{
    let n = cs.len();
    let ghost body = cs@.skip(start as int);
    if start == n {
        return None;
    }
    let mut acc: u64 = 0;
    let mut too_big = false;
    let mut i: usize = start;
    assert(body.take(0) =~= Seq::<char>::empty());
    while i < n
        invariant
            n == cs@.len(),
            start <= i <= n,
            body == cs@.skip(start as int),
            all_digits(body.take(i - start)),
            too_big ==> digits_value(body.take(i - start)) > cap,
            !too_big ==> acc == digits_value(body.take(i - start)) && acc <= cap,
        decreases n - i,
    {
        let c = cs[i];
        let u = c as u32;
        if u < 48 || u > 57 {
            assert(body[i - start] == c);
            return None;
        }
        let ghost t = body.take(i - start + 1);
        assert(t.drop_last() =~= body.take(i - start));
        assert(t.last() == c);
        assert(all_digits(t)) by {
            assert forall|j: int| 0 <= j < t.len() implies is_digit(#[trigger] t[j]) by {
                if j < t.len() - 1 {
                    assert(t[j] == body.take(i - start)[j]);
                }
            }
        }
        let d = (u - 48) as u64;
        if !too_big {
            if d > cap {
                too_big = true;
            } else if acc > (cap - d) / 10 {
                assert(acc * 10 + d > cap) by (nonlinear_arith)
                    requires
                        acc > (cap - d) / 10,
                        d <= cap,
                ;
                too_big = true;
            } else {
                assert(acc * 10 + d <= cap) by (nonlinear_arith)
                    requires
                        acc <= (cap - d) / 10,
                        d <= cap,
                ;
                acc = acc * 10 + d;
            }
        } else {
            assert(digits_value(t) >= digits_value(body.take(i - start))) by (nonlinear_arith)
                requires
                    digits_value(t) == digits_value(body.take(i - start)) * 10 + digit_value(
                        c,
                    ),
            ;
        }
        i = i + 1;
    }
    assert(body.take(n - start) =~= body);
    if too_big {
        None
    } else {
        Some(acc)
    }
}

/// Reads `s` as `str::parse::<usize>` does.
pub fn parse_usize(s: &str) -> (res: Option<usize>)
    ensures
        res == parse_usize_spec(s@),
{
    let cs = chars_of(s);
    let start: usize = if cs.len() > 0 && cs[0] == '+' {
        1
    } else {
        0
    };
    assert(start == 1 ==> cs@.skip(1) =~= s@.drop_first());
    assert(cs@.skip(0) =~= s@);
    match read_digits(&cs, start, usize::MAX as u64) {
        Some(v) => Some(v as usize),
        None => None,
    }
}

/// Reads `s` as `str::parse::<i32>` does.
pub fn parse_i32(s: &str) -> (res: Option<i32>)
    ensures
        res == parse_i32_spec(s@),
{
    let cs = chars_of(s);
    assert(cs@.skip(0) =~= s@);
    assert(cs@.len() > 0 ==> cs@.skip(1) =~= s@.drop_first());
    if cs.len() > 0 && cs[0] == '-' {
        match read_digits(&cs, 1, 2147483648) {
            Some(v) => {
                if v == 2147483648 {
                    Some(-2147483648i32)
                } else {
                    Some(-(v as i32))
                }
            },
            None => None,
        }
    } else {
        let start: usize = if cs.len() > 0 && cs[0] == '+' {
            1
        } else {
            0
        };
        match read_digits(&cs, start, 2147483647) {
            Some(v) => Some(v as i32),
            None => None,
        }
    }
}

/// The one-character text of the digit `d`.
fn digit_text(d: u64) -> (t: &'static str)
    requires
        d < 10,
    ensures
        t@ == seq![digit_char(d as nat)],
{
    let digits = "0123456789";
    proof {
        reveal_strlit("0123456789");
    }
    let t = digits.substring_char(d as usize, d as usize + 1);
    assert(t@ =~= seq![digit_char(d as nat)]);
    t
}

/// The decimal text of `n`.
pub fn decimal_text(n: u64) -> (t: String)
    ensures
        t@ == decimal(n as nat),
    decreases n,
{
    if n < 10 {
        digit_text(n).to_owned()
    } else {
        let mut t = decimal_text(n / 10);
        t.append(digit_text(n % 10));
        t
    }
}

/// The decimal text of `x`, as `Display` writes it.
pub fn signed_decimal_text(x: i64) -> (t: String)
    ensures
        t@ == signed_decimal(x as int),
{
    if x < 0 {
        let magnitude: u64 = (-(x + 1)) as u64 + 1;
        let mut t = "-".to_owned();
        let digits = decimal_text(magnitude);
        t.append(digits.as_str());
        proof {
            reveal_strlit("-");
        }
        assert(t@ =~= seq!['-'] + decimal((-x) as nat));
        t
    } else {
        decimal_text(x as u64)
    }
}

} // verus!
