use vstd::prelude::*;

verus! {

/// Smallest reading the two accepted shapes can express, in tenths of a degree.
pub const TEMP_MIN: i32 = -999;

/// Largest reading the two accepted shapes can express, in tenths of a degree.
pub const TEMP_MAX: i32 = 999;

pub open spec fn is_digit(b: u8) -> bool {
    48 <= b <= 57
}

pub open spec fn digit_value(b: u8) -> int {
    b as int - 48
}

/// Value in tenths of an unsigned reading of shape `D.D` or `DD.D`.
pub open spec fn unsigned_tenths(s: Seq<u8>) -> Option<int> {
    if s.len() == 3 && is_digit(s[0]) && s[1] == 46u8 && is_digit(s[2]) {
        Some(digit_value(s[0]) * 10 + digit_value(s[2]))
    } else if s.len() == 4 && is_digit(s[0]) && is_digit(s[1]) && s[2] == 46u8 && is_digit(
        s[3],
    ) {
        Some(digit_value(s[0]) * 100 + digit_value(s[1]) * 10 + digit_value(s[3]))
    } else {
        None
    }
}

/// Value in tenths of a temperature field, or `None` when the field has neither shape.
pub open spec fn temperature_of(s: Seq<u8>) -> Option<int> {
    if s.len() > 0 && s[0] == 45u8 {
        match unsigned_tenths(s.drop_first()) {
            Some(v) => Some(-v),
            None => None,
        }
    } else {
        unsigned_tenths(s)
    }
}

/// Parses a temperature field (`D.D` or `DD.D`, optionally after `-`) into tenths of a degree.
pub fn parse_tempreture(s: &[u8]) -> (r: Option<i32>)
    ensures
        match temperature_of(s@) {
            Some(v) => r == Some(v as i32) && TEMP_MIN <= v <= TEMP_MAX,
            None => r is None,
        },
{
    let n = s.len();
    if n == 0 {
        return None;
    }
    let neg = s[0] == 45u8;
    let off: usize = if neg { 1 } else { 0 };
    let m = n - off;
    let ghost body = if neg { s@.drop_first() } else { s@ };
    assert(body.len() == m);
    assert(forall|i: int| 0 <= i < m ==> body[i] == s@[i + off]);
    let v: i32;
    if m == 3 {
        let a = s[off];
        let b = s[off + 1];
        let c = s[off + 2];
        if 48u8 <= a && a <= 57u8 && b == 46u8 && 48u8 <= c && c <= 57u8 {
            v = ((a - 48u8) as i32) * 10 + ((c - 48u8) as i32);
        } else {
            return None;
        }
    } else if m == 4 {
        let a = s[off];
        let b = s[off + 1];
        let c = s[off + 2];
        let d = s[off + 3];
        if 48u8 <= a && a <= 57u8 && 48u8 <= b && b <= 57u8 && c == 46u8 && 48u8 <= d && d
            <= 57u8 {
            v = ((a - 48u8) as i32) * 100 + ((b - 48u8) as i32) * 10 + ((d - 48u8) as i32);
        } else {
            return None;
        }
    } else {
        return None;
    }
    if neg {
        Some(-v)
    } else {
        Some(v)
    }
}

pub open spec fn digit_char(d: int) -> char {
    (d + 48) as char
}

/// Decimal digits of a natural number, most significant first, without leading zeros.
pub open spec fn decimal(n: nat) -> Seq<char>
    decreases n,
{
    if n < 10 {
        seq![digit_char(n as int)]
    } else {
        decimal(n / 10) + seq![digit_char((n % 10) as int)]
    }
}

pub open spec fn abs(t: int) -> nat {
    if t < 0 {
        (-t) as nat
    } else {
        t as nat
    }
}

/// A tenths value rendered with exactly one fractional digit: `-2.5`, `0.0`, `13.6`.
pub open spec fn tenths_text(t: int) -> Seq<char> {
    (if t < 0 {
        seq!['-']
    } else {
        Seq::<char>::empty()
    }) + decimal(abs(t) / 10) + seq!['.', digit_char((abs(t) % 10) as int)]
}

fn digit_str(d: u32) -> (r: &'static str)
    requires
        d < 10,
    ensures
        r@ == seq![digit_char(d as int)],
{
    proof {
        reveal_strlit("0");
        reveal_strlit("1");
        reveal_strlit("2");
        reveal_strlit("3");
        reveal_strlit("4");
        reveal_strlit("5");
        reveal_strlit("6");
        reveal_strlit("7");
        reveal_strlit("8");
        reveal_strlit("9");
    }
    match d {
        0 => "0",
        1 => "1",
        2 => "2",
        3 => "3",
        4 => "4",
        5 => "5",
        6 => "6",
        7 => "7",
        8 => "8",
        _ => "9",
    }
}

/// Appends the decimal digits of `n` to `out`.
fn push_decimal(out: &mut String, n: u32)
    ensures
        final(out)@ == old(out)@ + decimal(n as nat),
    decreases n,
{
    if n < 10 {
        out.append(digit_str(n));
    } else {
        push_decimal(out, n / 10);
        out.append(digit_str(n % 10));
        assert(final(out)@ =~= old(out)@ + decimal(n as nat));
    }
}

/// Renders a value in tenths of a degree with one fractional digit.
pub fn format_tempreture(temp: i32) -> (r: String)
    ensures
        r@ == tenths_text(temp as int),
{
    let mut out = String::new();
    let a: u32 = if temp < 0 {
        proof {
            reveal_strlit("-");
        }
        out.append("-");
        if temp == i32::MIN {
            2147483648u32
        } else {
            (-temp) as u32
        }
    } else {
        temp as u32
    };
    assert(a as nat == abs(temp as int));
    push_decimal(&mut out, a / 10);
    proof {
        reveal_strlit(".");
    }
    out.append(".");
    out.append(digit_str(a % 10));
    assert(out@ =~= tenths_text(temp as int));
    out
}

} // verus!
