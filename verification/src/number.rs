//! Numbers in text: reading decimal and hexadecimal digits, writing hexadecimal ones.

use vstd::prelude::*;

verus! {

/// The value of the digit `c` in the given radix.
pub open spec fn digit_value(c: char, radix: int) -> Option<int> {
    let n = c as int;
    let v = if 0x30 <= n <= 0x39 {
        n - 0x30
    } else if 0x41 <= n <= 0x5A {
        n - 0x41 + 10
    } else if 0x61 <= n <= 0x7A {
        n - 0x61 + 10
    } else {
        radix
    };
    if v < radix {
        Some(v)
    } else {
        None
    }
}

/// The value of a run of digits, where every character is one.
pub open spec fn digits_value(s: Seq<char>, radix: int) -> Option<int>
    decreases s.len(),
{
    if s.len() == 0 {
        Some(0)
    } else {
        match (digits_value(s.drop_last(), radix), digit_value(s.last(), radix)) {
            (Some(v), Some(d)) => Some(v * radix + d),
            _ => None,
        }
    }
}

/// The digits of a number: what follows its optional plus sign.
pub open spec fn unsigned_digits(s: Seq<char>) -> Seq<char> {
    if s.len() > 0 && s[0] == '+' {
        s.skip(1)
    } else {
        s
    }
}

/// The number that `s` writes, where it is an optional plus sign and at least one digit, and the
/// value is at most `max`.
pub open spec fn number(s: Seq<char>, radix: int, max: int) -> Option<int> {
    let digits = unsigned_digits(s);
    match digits_value(digits, radix) {
        Some(v) => if digits.len() > 0 && v <= max {
            Some(v)
        } else {
            None
        },
        None => None,
    }
}

/// The hexadecimal digit of `d`, in upper or lower case.
pub open spec fn hex_digit(d: int, upper: bool) -> char {
    if d < 10 {
        (0x30 + d) as char
    } else if upper {
        (0x41 + d - 10) as char
    } else {
        (0x61 + d - 10) as char
    }
}

/// The hexadecimal digits of `n`, without leading zeros.
pub open spec fn hex(n: nat, upper: bool) -> Seq<char>
    decreases n,
{
    if n < 16 {
        seq![hex_digit(n as int, upper)]
    } else {
        hex(n / 16, upper).push(hex_digit((n % 16) as int, upper))
    }
}

/// `s` with zeros in front of it up to a length of four.
pub open spec fn padded(s: Seq<char>) -> Seq<char> {
    if s.len() < 4 {
        Seq::new((4 - s.len()) as nat, |i: int| '0') + s
    } else {
        s
    }
}

/// A digit more never makes the value smaller, and never mends a run that is no number.
proof fn lemma_digits_grow(s: Seq<char>, n: int, radix: int)
    requires
        0 <= n <= s.len(),
        radix == 10 || radix == 16,
    ensures
        digits_value(s, radix) is Some ==> digits_value(s.take(n), radix) is Some && 0
            <= digits_value(s.take(n), radix)->0 <= digits_value(s, radix)->0,
    decreases s.len(),
{
    if n == s.len() {
        assert(s.take(n) =~= s);
        if s.len() > 0 {
            lemma_digits_grow(s.drop_last(), s.len() - 1, radix);
            assert(s.drop_last().take(s.len() - 1) =~= s.drop_last());
        }
    } else {
        lemma_digits_grow(s.drop_last(), n, radix);
        assert(s.drop_last().take(n) =~= s.take(n));
    }
}

/// The value of the digit `c` in the given radix.
fn digit_of(c: char, radix: u32) -> (r: Option<u32>)
    requires
        radix == 10 || radix == 16,
    ensures
        r is Some <==> digit_value(c, radix as int) is Some,
        r matches Some(v) ==> v == digit_value(c, radix as int)->0,
{
    let n: u32 = c as u32;
    let v: u32 = if 0x30 <= n && n <= 0x39 {
        n - 0x30
    } else if 0x41 <= n && n <= 0x5A {
        n - 0x41 + 10
    } else if 0x61 <= n && n <= 0x7A {
        n - 0x61 + 10
    } else {
        radix
    };
    if v < radix {
        Some(v)
    } else {
        None
    }
}

/// The number that `s` writes in the given radix, where it is at most `max`.
pub fn parse_number(s: &str, radix: u32, max: u32) -> (r: Option<u32>)
    requires
        radix == 10 || radix == 16,
    ensures
        r is Some <==> number(s@, radix as int, max as int) is Some,
        r matches Some(v) ==> v == number(s@, radix as int, max as int)->0,
{
    let chars = crate::text::chars_of(s);
    let from: usize = if chars.len() > 0 && chars[0] == '+' {
        1
    } else {
        0
    };
    let ghost digits = unsigned_digits(s@);
    if from == chars.len() {
        return None;
    }
    assert(digits =~= s@.skip(from as int));
    let mut value: u64 = 0;
    for i in from..chars.len()
        invariant
            radix == 10 || radix == 16,
            chars@ == s@,
            digits == s@.skip(from as int),
            digits == unsigned_digits(s@),
            from <= i <= s@.len(),
            value <= max,
            digits_value(digits.take(i - from), radix as int) == Some(value as int),
    {
        let ghost next = digits.take(i + 1 - from);
        proof {
            assert(next.drop_last() =~= digits.take(i - from));
            assert(next.last() == chars@[i as int]);
            lemma_digits_grow(digits, i + 1 - from, radix as int);
        }
        match digit_of(chars[i], radix) {
            Some(d) => {
                assert(value * radix <= 0xFFFF_FFFF * 16) by (nonlinear_arith)
                    requires
                        value <= 0xFFFF_FFFF,
                        radix <= 16,
                ;
                value = value * (radix as u64) + d as u64;
                if value > max as u64 {
                    return None;
                }
            },
            None => {
                return None;
            },
        }
    }
    assert(digits.take(digits.len() as int) =~= digits);
    Some(value as u32)
}

/// Writes `n` in hexadecimal digits, without leading zeros.
pub fn to_hex(n: u32, upper: bool) -> (r: String)
    ensures
        r@ == hex(n as nat, upper),
    decreases n,
{
    let mut out = if n < 16 {
        String::new()
    } else {
        to_hex(n / 16, upper)
    };
    let d: u8 = (n % 16) as u8;
    let c: char = if d < 10 {
        (0x30 + d) as char
    } else if upper {
        (0x41 + (d - 10)) as char
    } else {
        (0x61 + (d - 10)) as char
    };
    out.push(c);
    assert(out@ =~= hex(n as nat, upper));
    out
}

/// Writes `n` in at least four upper-case hexadecimal digits.
pub fn to_padded_hex(n: u32) -> (r: String)
    ensures
        r@ == padded(hex(n as nat, true)),
{
    let digits = to_hex(n, true);
    let len: usize = digits.as_str().unicode_len();
    let mut out = String::new();
    let mut i: usize = len;
    while i < 4
        invariant
            len <= i,
            i <= 4 || i == len,
            out@ == Seq::new((i - len) as nat, |j: int| '0'),
        decreases 4 - i,
    {
        out.push('0');
        i = i + 1;
        assert(out@ =~= Seq::new((i - len) as nat, |j: int| '0'));
    }
    out.append(digits.as_str());
    assert(out@ =~= padded(hex(n as nat, true)));
    out
}

proof fn lemma_hex_digit_value(d: int, upper: bool)
    requires
        0 <= d < 16,
    ensures
        digit_value(hex_digit(d, upper), 16) == Some(d),
        hex_digit(d, upper) != '+',
{
}

/// What `hex` writes is read back as the same number.
pub proof fn lemma_hex_value(n: nat, upper: bool)
    ensures
        digits_value(hex(n, upper), 16) == Some(n as int),
        hex(n, upper).len() > 0,
        hex(n, upper)[0] != '+',
    decreases n,
{
    let h = hex(n, upper);
    lemma_hex_digit_value((n % 16) as int, upper);
    if n < 16 {
        assert(h.drop_last() =~= Seq::<char>::empty());
        assert(digits_value(h.drop_last(), 16) == Some(0int));
    } else {
        lemma_hex_value(n / 16, upper);
        assert(h.drop_last() =~= hex(n / 16, upper));
    }
}

/// Numbers below a power of sixteen have as few digits.
proof fn lemma_hex_len(n: nat, upper: bool)
    ensures
        n < 0x1000000 ==> hex(n, upper).len() <= 6,
{
    reveal_with_fuel(hex, 7);
}

/// Zeros before a number do not change it.
pub proof fn lemma_zeros_value(zeros: Seq<char>, s: Seq<char>)
    requires
        forall|i: int| 0 <= i < zeros.len() ==> zeros[i] == '0',
    ensures
        digits_value(zeros + s, 16) == digits_value(s, 16),
    decreases zeros.len() + s.len(),
{
    if s.len() > 0 {
        lemma_zeros_value(zeros, s.drop_last());
        assert((zeros + s).drop_last() =~= zeros + s.drop_last());
    } else {
        assert(zeros + s =~= zeros);
        if zeros.len() > 0 {
            let shorter = zeros.drop_last();
            lemma_zeros_value(shorter, s);
            assert(shorter + s =~= shorter);
        } else {
            assert(zeros =~= s);
        }
    }
}

/// Padding keeps the value, and makes four to six digits of any number of at most six.
pub proof fn lemma_padded_hex(n: nat)
    requires
        n < 0x1000000,
    ensures
        digits_value(padded(hex(n, true)), 16) == Some(n as int),
        4 <= padded(hex(n, true)).len() <= 6,
        padded(hex(n, true))[0] != '+',
{
    let h = hex(n, true);
    lemma_hex_value(n, true);
    lemma_hex_len(n, true);
    if h.len() < 4 {
        let zeros = Seq::new((4 - h.len()) as nat, |i: int| '0');
        lemma_zeros_value(zeros, h);
    }
}

} // verus!
