use vstd::prelude::*;
use crate::strings::push_char;

verus! {

/// The character of a digit `d < 16`, upper-case for letters.
pub open spec fn digit_char(d: nat) -> char {
    if d == 0 { '0' } else if d == 1 { '1' } else if d == 2 { '2' } else if d == 3 { '3' }
    else if d == 4 { '4' } else if d == 5 { '5' } else if d == 6 { '6' } else if d == 7 { '7' }
    else if d == 8 { '8' } else if d == 9 { '9' } else if d == 10 { 'A' } else if d == 11 { 'B' }
    else if d == 12 { 'C' } else if d == 13 { 'D' } else if d == 14 { 'E' } else { 'F' }
}

/// Decimal digits of `n`, most significant first, without leading zeros ("0" for zero).
pub open spec fn decimal(n: nat) -> Seq<char>
    decreases n,
{
    if n < 10 {
        seq![digit_char(n)]
    } else {
        decimal(n / 10).push(digit_char(n % 10))
    }
}

/// Decimal text of a signed integer, with `-` before negative values.
pub open spec fn signed_decimal(v: int) -> Seq<char> {
    if v < 0 { seq!['-'] + decimal((-v) as nat) } else { decimal(v as nat) }
}

/// The lowest `n` hexadecimal digits of `v`, upper-case, most significant first.
pub open spec fn hex_digits(v: nat, n: nat) -> Seq<char>
    decreases n,
{
    if n == 0 {
        Seq::empty()
    } else {
        hex_digits(v / 16, (n - 1) as nat).push(digit_char(v % 16))
    }
}

fn digit_to_char(d: u64) -> (c: char)
    requires
        d < 16,
    ensures
        c == digit_char(d as nat),
{
    if d == 0 { '0' } else if d == 1 { '1' } else if d == 2 { '2' } else if d == 3 { '3' }
    else if d == 4 { '4' } else if d == 5 { '5' } else if d == 6 { '6' } else if d == 7 { '7' }
    else if d == 8 { '8' } else if d == 9 { '9' } else if d == 10 { 'A' } else if d == 11 { 'B' }
    else if d == 12 { 'C' } else if d == 13 { 'D' } else if d == 14 { 'E' } else { 'F' }
}

/// Appends the decimal digits of `v`.
pub fn push_decimal(s: &mut String, v: u64)
    ensures
        final(s)@ == old(s)@ + decimal(v as nat),
    decreases v,
{
    if v >= 10 {
        push_decimal(s, v / 10);
    }
    push_char(s, digit_to_char(v % 10));
}

/// Appends the decimal text of a signed value.
pub fn push_signed_decimal(s: &mut String, v: i64)
    ensures
        final(s)@ == old(s)@ + signed_decimal(v as int),
{
    if v < 0 {
        push_char(s, '-');
        let mag: u64 = ((-(v + 1)) as u64) + 1;
        push_decimal(s, mag);
        assert(seq!['-'] + decimal(mag as nat) == seq!['-'].add(decimal(mag as nat)));
    } else {
        push_decimal(s, v as u64);
    }
}

/// Decimal text of an unsigned value, as `Display` writes it.
pub fn format_u64(v: u64) -> (s: String)
    ensures
        s@ == decimal(v as nat),
{
    let mut s = String::new();
    push_decimal(&mut s, v);
    s
}

/// Decimal text of a signed value, as `Display` writes it.
pub fn format_i64(v: i64) -> (s: String)
    ensures
        s@ == signed_decimal(v as int),
{
    let mut s = String::new();
    push_signed_decimal(&mut s, v);
    s
}

/// Appends the lowest `n` hexadecimal digits of `v`, upper-case (`{:0nX}` for values that fit).
pub fn push_hex(s: &mut String, v: u64, n: u64)
    ensures
        final(s)@ == old(s)@ + hex_digits(v as nat, n as nat),
    decreases n,
{
    if n > 0 {
        push_hex(s, v / 16, n - 1);
        push_char(s, digit_to_char(v % 16));
    }
}

/// The value of `c` as a digit in base `radix` (10 or 16; both letter cases), if it is one.
pub open spec fn digit_value(c: char, radix: nat) -> Option<nat> {
    if '0' <= c <= '9' {
        if (c as nat - '0' as nat) < radix { Some((c as nat - '0' as nat) as nat) } else { None }
    } else if radix == 16 && 'a' <= c <= 'f' {
        Some((c as nat - 'a' as nat + 10) as nat)
    } else if radix == 16 && 'A' <= c <= 'F' {
        Some((c as nat - 'A' as nat + 10) as nat)
    } else {
        None
    }
}

/// Value of a non-empty run of base-`radix` digits; `None` if it is empty or holds another character.
pub open spec fn digits_value(s: Seq<char>, radix: nat) -> Option<nat>
    decreases s.len(),
{
    if s.len() == 0 {
        None
    } else if s.len() == 1 {
        digit_value(s[0], radix)
    } else {
        match (digits_value(s.drop_last(), radix), digit_value(s.last(), radix)) {
            (Some(h), Some(d)) => Some(h * radix + d),
            _ => None,
        }
    }
}

/// The integer that `from_str_radix` reads from `s` before its range check: an optional
/// `+` (or `-` where `signed`) followed by digits.
pub open spec fn integer_text(s: Seq<char>, radix: nat, signed: bool) -> Option<int> {
    if s.len() == 0 {
        None
    } else if s[0] == '+' {
        match digits_value(s.drop_first(), radix) { Some(v) => Some(v as int), None => None }
    } else if s[0] == '-' && signed {
        match digits_value(s.drop_first(), radix) { Some(v) => Some(-v), None => None }
    } else {
        match digits_value(s, radix) { Some(v) => Some(v as int), None => None }
    }
}

/// `str::parse::<i32>`.
pub open spec fn parse_i32_spec(s: Seq<char>) -> Option<i32> {
    match integer_text(s, 10, true) {
        Some(v) => if i32::MIN <= v <= i32::MAX { Some(v as i32) } else { None },
        None => None,
    }
}

/// `str::parse::<i64>`.
pub open spec fn parse_i64_spec(s: Seq<char>) -> Option<i64> {
    match integer_text(s, 10, true) {
        Some(v) => if i64::MIN <= v <= i64::MAX { Some(v as i64) } else { None },
        None => None,
    }
}

/// `u64::from_str_radix(s, radix)` (`str::parse::<u64>` for radix 10).
pub open spec fn parse_u64_spec(s: Seq<char>, radix: nat) -> Option<u64> {
    match integer_text(s, radix, false) {
        Some(v) => if 0 <= v <= u64::MAX { Some(v as u64) } else { None },
        None => None,
    }
}

fn digit_of(c: char, radix: u64) -> (r: Option<u64>)
    requires
        radix == 10 || radix == 16,
    ensures
        r matches Some(d) ==> digit_value(c, radix as nat) == Some(d as nat) && d < radix,
        r is None ==> digit_value(c, radix as nat) is None,
{
    if '0' <= c && c <= '9' {
        Some((c as u32 - '0' as u32) as u64)
    } else if radix == 16 && 'a' <= c && c <= 'f' {
        Some((c as u32 - 'a' as u32 + 10) as u64)
    } else if radix == 16 && 'A' <= c && c <= 'F' {
        Some((c as u32 - 'A' as u32 + 10) as u64)
    } else {
        None
    }
}

proof fn lemma_digits_prefix_none(s: Seq<char>, radix: nat, k: int)
    requires
        0 < k <= s.len(),
        digits_value(s.subrange(0, k), radix) is None,
    ensures
        digits_value(s, radix) is None,
    decreases s.len() - k,
{
    if k < s.len() {
        assert(s.subrange(0, k + 1).drop_last() == s.subrange(0, k));
        lemma_digits_prefix_none(s, radix, k + 1);
    } else {
        assert(s.subrange(0, k) == s);
    }
}

proof fn lemma_digits_prefix_large(s: Seq<char>, radix: nat, k: int, bound: nat)
    requires
        radix >= 2,
        0 < k <= s.len(),
        digits_value(s.subrange(0, k), radix) matches Some(v) && v > bound,
    ensures
        digits_value(s, radix) is None || digits_value(s, radix)->0 > bound,
    decreases s.len() - k,
{
    if k < s.len() {
        assert(s.subrange(0, k + 1).drop_last() == s.subrange(0, k));
        let v = digits_value(s.subrange(0, k), radix)->0;
        if digits_value(s.subrange(0, k + 1), radix) is Some {
            assert(v * radix >= v) by (nonlinear_arith) requires radix >= 2;
            lemma_digits_prefix_large(s, radix, k + 1, bound);
        } else {
            lemma_digits_prefix_none(s, radix, k + 1);
        }
    } else {
        assert(s.subrange(0, k) == s);
    }
}

/// The value of `chars[from..]` as base-`radix` digits, when it is at most `u64::MAX`.
fn digits_magnitude(chars: &Vec<char>, from: usize, radix: u64) -> (r: Option<u64>)
    requires
        radix == 10 || radix == 16,
        from <= chars@.len(),
    ensures
        r == (match digits_value(chars@.subrange(from as int, chars@.len() as int), radix as nat) {
            Some(v) => if v <= u64::MAX { Some(v as u64) } else { None },
            None => None,
        }),
{
    let ghost s = chars@.subrange(from as int, chars@.len() as int);
    if from == chars.len() {
        return None;
    }
    let mut acc: u64 = 0;
    let mut i: usize = from;
    while i < chars.len()
        invariant
            from <= i <= chars@.len(),
            radix == 10 || radix == 16,
            s == chars@.subrange(from as int, chars@.len() as int),
            s.len() > 0,
            i == from ==> acc == 0,
            i > from ==> digits_value(s.subrange(0, i - from), radix as nat) == Some(acc as nat),
        decreases chars@.len() - i,
    {
        let d = match digit_of(chars[i], radix) {
            Some(d) => d,
            None => {
                proof {
                    let k = i - from;
                    if k == 0 {
                        assert(s.subrange(0, 1).len() == 1);
                        assert(s.subrange(0, 1)[0] == chars@[i as int]);
                    } else {
                        assert(s.subrange(0, k + 1).drop_last() == s.subrange(0, k));
                        assert(s.subrange(0, k + 1).last() == chars@[i as int]);
                    }
                    lemma_digits_prefix_none(s, radix as nat, k + 1);
                }
                return None;
            },
        };
        let ghost k = i - from;
        let lim = (u64::MAX - d) / radix;
        if acc > lim {
            proof {
                assert(acc * radix + d > u64::MAX) by (nonlinear_arith)
                    requires acc > lim, lim as int == ((u64::MAX as int) - (d as int)) / (radix as int), radix > 0, d < radix;
                assert(s.subrange(0, k + 1).drop_last() == s.subrange(0, k));
                assert(s.subrange(0, k + 1).last() == chars@[i as int]);
                lemma_digits_prefix_large(s, radix as nat, k + 1, u64::MAX as nat);
            }
            return None;
        }
        proof {
            assert(acc * radix + d <= u64::MAX) by (nonlinear_arith)
                requires acc <= lim, lim as int == ((u64::MAX as int) - (d as int)) / (radix as int), radix > 0, d < radix;
            if k == 0 {
                assert(s.subrange(0, 1).len() == 1);
                assert(s.subrange(0, 1)[0] == chars@[i as int]);
            } else {
                assert(s.subrange(0, k + 1).drop_last() == s.subrange(0, k));
                assert(s.subrange(0, k + 1).last() == chars@[i as int]);
            }
        }
        acc = acc * radix + d;
        i += 1;
    }
    assert(s.subrange(0, s.len() as int) == s);
    Some(acc)
}

/// Reads an integer as `from_str_radix` does (sign, digits), giving its sign and magnitude
/// when the magnitude is at most `u64::MAX`.
fn signed_magnitude(chars: &Vec<char>, radix: u64, signed: bool) -> (r: Option<(bool, u64)>)
    requires
        radix == 10 || radix == 16,
    ensures
        match integer_text(chars@, radix as nat, signed) {
            Some(v) => if -(u64::MAX as int) <= v <= u64::MAX {
                r matches Some((neg, m)) && (if neg { v == -(m as int) } else { v == m as int })
            } else {
                r is None
            },
            None => r is None,
        },
{
    if chars.len() == 0 {
        return None;
    }
    if chars[0] == '+' || (chars[0] == '-' && signed) {
        let neg = chars[0] == '-';
        let m = digits_magnitude(chars, 1, radix);
        assert(chars@.subrange(1, chars@.len() as int) == chars@.drop_first());
        match m {
            Some(m) => Some((neg, m)),
            None => None,
        }
    } else {
        let m = digits_magnitude(chars, 0, radix);
        assert(chars@.subrange(0, chars@.len() as int) == chars@);
        match m {
            Some(m) => Some((false, m)),
            None => None,
        }
    }
}

/// `str::parse::<i32>` on the characters.
pub fn parse_i32(chars: &Vec<char>) -> (r: Option<i32>)
    ensures
        r == parse_i32_spec(chars@),
{
    match signed_magnitude(chars, 10, true) {
        Some((neg, m)) => {
            if neg {
                if m <= 0x8000_0000 { Some((0 - (m as i64)) as i32) } else { None }
            } else {
                if m <= 0x7fff_ffff { Some(m as i32) } else { None }
            }
        },
        None => None,
    }
}

/// `str::parse::<i64>` on the characters.
pub fn parse_i64(chars: &Vec<char>) -> (r: Option<i64>)
    ensures
        r == parse_i64_spec(chars@),
{
    match signed_magnitude(chars, 10, true) {
        Some((neg, m)) => {
            if neg {
                if m <= 0x8000_0000_0000_0000 {
                    if m == 0x8000_0000_0000_0000 { Some(i64::MIN) } else { Some(0 - (m as i64)) }
                } else {
                    None
                }
            } else {
                if m <= 0x7fff_ffff_ffff_ffff { Some(m as i64) } else { None }
            }
        },
        None => None,
    }
}

/// `u64::from_str_radix` on the characters (radix 10 or 16).
pub fn parse_u64_radix(chars: &Vec<char>, radix: u64) -> (r: Option<u64>)
    requires
        radix == 10 || radix == 16,
    ensures
        r == parse_u64_spec(chars@, radix as nat),
{
    match signed_magnitude(chars, radix, false) {
        Some((neg, m)) => Some(m),
        None => None,
    }
}

/// `16^n`.
pub open spec fn pow16(n: nat) -> nat
    decreases n,
{
    if n == 0 { 1 } else { 16 * pow16((n - 1) as nat) }
}

/// A digit's character reads back as the digit.
pub proof fn lemma_digit_char_value(d: nat, radix: nat)
    requires
        radix == 10 || radix == 16,
        d < radix,
    ensures
        digit_value(digit_char(d), radix) == Some(d),
        digit_char(d) != '+' && digit_char(d) != '-' && digit_char(d) != 'x',
{
}

/// Decimal text is digits only, and reads back as its number.
pub proof fn lemma_decimal_value(n: nat)
    ensures
        digits_value(decimal(n), 10) == Some(n),
        decimal(n).len() > 0,
        forall|i: int| 0 <= i < decimal(n).len() ==> #[trigger] digit_value(decimal(n)[i], 10) is Some,
    decreases n,
{
    if n < 10 {
        lemma_digit_char_value(n, 10);
    } else {
        lemma_decimal_value(n / 10);
        lemma_digit_char_value(n % 10, 10);
        let p = decimal(n / 10);
        assert(decimal(n).drop_last() == p);
        assert forall|i: int| 0 <= i < decimal(n).len() implies #[trigger] digit_value(decimal(n)[i], 10) is Some by {
            if i < p.len() {
                assert(decimal(n)[i] == p[i]);
            }
        }
    }
}

/// A digit is neither a sign nor `x`; a decimal digit is not `X` either.
pub proof fn lemma_digit_not_sign(c: char, radix: nat)
    requires
        digit_value(c, radix) is Some,
    ensures
        c != '+' && c != '-' && c != 'x',
        radix == 10 ==> c != 'X',
{
}

/// Decimal text reads back as its number with `str::parse`.
pub proof fn lemma_parse_decimal(n: nat)
    ensures
        integer_text(decimal(n), 10, false) == Some(n as int),
        integer_text(decimal(n), 10, true) == Some(n as int),
{
    lemma_decimal_value(n);
    lemma_digit_not_sign(decimal(n)[0], 10);
}

/// Signed decimal text reads back as its number with `str::parse`.
pub proof fn lemma_parse_signed_decimal(v: int)
    ensures
        integer_text(signed_decimal(v), 10, true) == Some(v),
{
    if v < 0 {
        lemma_decimal_value((-v) as nat);
        assert((seq!['-'] + decimal((-v) as nat)).drop_first() =~= decimal((-v) as nat));
    } else {
        lemma_parse_decimal(v as nat);
    }
}

/// The lowest `n` hexadecimal digits of `v` read back as `v % 16^n`.
pub proof fn lemma_hex_value(v: nat, n: nat)
    requires
        n > 0,
    ensures
        digits_value(hex_digits(v, n), 16) == Some(v % pow16(n)),
        forall|i: int| 0 <= i < hex_digits(v, n).len() ==> #[trigger] digit_value(hex_digits(v, n)[i], 16) is Some,
        hex_digits(v, n).len() == n,
    decreases n,
{
    lemma_digit_char_value(v % 16, 16);
    if n == 1 {
        assert(hex_digits(v / 16, 0) =~= Seq::<char>::empty());
        assert(hex_digits(v, 1) =~= seq![digit_char(v % 16)]);
        assert(pow16(1) == 16) by {
            reveal_with_fuel(pow16, 2);
        }
    } else {
        lemma_hex_value(v / 16, (n - 1) as nat);
        let p = hex_digits(v / 16, (n - 1) as nat);
        assert(hex_digits(v, n).drop_last() == p);
        assert forall|i: int| 0 <= i < hex_digits(v, n).len() implies #[trigger] digit_value(hex_digits(v, n)[i], 16) is Some by {
            if i < p.len() {
                assert(hex_digits(v, n)[i] == p[i]);
            }
        }
        let m = pow16((n - 1) as nat);
        assert(m > 0) by {
            lemma_pow16_pos((n - 1) as nat);
        }
        vstd::arithmetic::div_mod::lemma_mod_breakdown(v as int, 16, m as int);
        assert(((v / 16) % m) * 16 + v % 16 == v % pow16(n)) by (nonlinear_arith)
            requires
                pow16(n) == 16 * m,
                v % (16 * m) == 16 * ((v / 16) % m) + v % 16,
        ;
    }
}

proof fn lemma_pow16_pos(n: nat)
    ensures
        pow16(n) > 0,
    decreases n,
{
    if n > 0 {
        lemma_pow16_pos((n - 1) as nat);
    }
}

/// Sixteen hexadecimal digits of a `u64` read back as it with `from_str_radix(.., 16)`.
pub proof fn lemma_parse_hex(v: u64)
    ensures
        parse_u64_spec(hex_digits(v as nat, 16), 16) == Some(v),
{
    lemma_hex_value(v as nat, 16);
    assert(pow16(16) == 0x1_0000_0000_0000_0000) by {
        reveal_with_fuel(pow16, 17);
    }
    lemma_digit_not_sign(hex_digits(v as nat, 16)[0], 16);
}

} // verus!
