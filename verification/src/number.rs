//! Decimal and hexadecimal numerals: the parsing that `str::parse` and
//! `u64::from_str_radix` perform on unsigned integers, and the formatting
//! that `{}` and `{:016x}` produce.
use vstd::prelude::*;
use vstd::arithmetic::div_mod::{lemma_fundamental_div_mod, lemma_mod_breakdown};

verus! {

// ---------------------------------------------------------------------------
// Digits
// ---------------------------------------------------------------------------

/// Whether `c` is a digit in base `radix` (10 or 16; hexadecimal letters of
/// either case).
pub open spec fn is_digit(c: char, radix: nat) -> bool {
    let u = c as u32;
    if radix == 16 {
        ||| 48 <= u <= 57
        ||| 97 <= u <= 102
        ||| 65 <= u <= 70
    } else {
        48 <= u <= 57
    }
}

/// The value of a digit.
pub open spec fn digit_value(c: char) -> nat {
    let u = c as u32;
    if 48 <= u <= 57 {
        (u - 48) as nat
    } else if 97 <= u <= 102 {
        (u - 87) as nat
    } else if 65 <= u <= 70 {
        (u - 55) as nat
    } else {
        0
    }
}

/// Whether every character of `s` is a digit in base `radix`.
pub open spec fn all_digits(s: Seq<char>, radix: nat) -> bool {
    forall|i: int| 0 <= i < s.len() ==> is_digit(#[trigger] s[i], radix)
}

/// The number that the digits `s` denote in base `radix`.
pub open spec fn digits_value(s: Seq<char>, radix: nat) -> nat
    decreases s.len(),
{
    if s.len() == 0 {
        0
    } else {
        digits_value(s.drop_last(), radix) * radix + digit_value(s.last())
    }
}

/// What parsing `s` as an unsigned integer of maximum `max` in base `radix`
/// gives: an optional `+`, then at least one digit, and a value that fits.
pub open spec fn parse_unsigned(s: Seq<char>, radix: nat, max: nat) -> Option<nat> {
    let d = if s.len() > 0 && s[0] == '+' {
        s.drop_first()
    } else {
        s
    };
    if d.len() == 0 || !all_digits(d, radix) || digits_value(d, radix) > max {
        None
    } else {
        Some(digits_value(d, radix))
    }
}

/// The value of a digit character, if it is one in base `radix`.
fn digit_of(c: char, radix: u64) -> (r: Option<u64>)
    requires
        radix == 10 || radix == 16,
    ensures
        r is Some <==> is_digit(c, radix as nat),
        r matches Some(d) ==> d == digit_value(c) && d < radix,
{
    let u = c as u32;
    if 48 <= u && u <= 57 {
        Some((u - 48) as u64)
    } else if radix == 16 && 97 <= u && u <= 102 {
        Some((u - 87) as u64)
    } else if radix == 16 && 65 <= u && u <= 70 {
        Some((u - 55) as u64)
    } else {
        None
    }
}

proof fn lemma_digits_value_grows(s: Seq<char>, radix: nat, c: char)
    requires
        radix >= 1,
    ensures
        digits_value(s.push(c), radix) >= digits_value(s, radix),
{
    assert(s.push(c).drop_last() == s);
    let v = digits_value(s, radix);
    assert(v * radix >= v) by (nonlinear_arith)
        requires
            radix >= 1,
    ;
}

/// Parses `v[lo..hi]` as an unsigned integer in base `radix` whose value may
/// be at most `max` (see [`parse_unsigned`]).
pub fn parse_unsigned_range(v: &Vec<char>, lo: usize, hi: usize, radix: u64, max: u64) -> (r:
    Option<u64>)
    requires
        lo <= hi <= v.len(),
        radix == 10 || radix == 16,
    ensures
        r matches Some(n) ==> parse_unsigned(v@.subrange(lo as int, hi as int), radix as nat, max as nat) == Some(n as nat),
        r is None ==> parse_unsigned(v@.subrange(lo as int, hi as int), radix as nat, max as nat) is None,
{
    let ghost s = v@.subrange(lo as int, hi as int);
    let mut start = lo;
    if lo < hi && v[lo] == '+' {
        start = lo + 1;
        assert(s.drop_first() == v@.subrange(start as int, hi as int));
    }
    let ghost d = v@.subrange(start as int, hi as int);
    assert(d == (if s.len() > 0 && s[0] == '+' { s.drop_first() } else { s }));
    if start == hi {
        return None;
    }
    let mut acc: u64 = 0;
    let mut over = false;
    let mut i = start;
    assert(v@.subrange(start as int, start as int) == Seq::<char>::empty());
    while i < hi
        invariant
            lo <= start <= i <= hi <= v.len(),
            radix == 10 || radix == 16,
            d == v@.subrange(start as int, hi as int),
            s == v@.subrange(lo as int, hi as int),
            d == (if s.len() > 0 && s[0] == '+' { s.drop_first() } else { s }),
            all_digits(v@.subrange(start as int, i as int), radix as nat),
            !over ==> acc == digits_value(v@.subrange(start as int, i as int), radix as nat)
                && acc <= max,
            over ==> digits_value(v@.subrange(start as int, i as int), radix as nat) > max,
        decreases hi - i,
    {
        let ghost p = v@.subrange(start as int, i as int);
        let ghost q = v@.subrange(start as int, i + 1);
        assert(q == p.push(v@[i as int]));
        assert(q.drop_last() == p);
        match digit_of(v[i], radix) {
            None => {
                assert(d[i - start] == v@[i as int]);
                assert(!is_digit(d[i - start], radix as nat));
                assert(!all_digits(d, radix as nat));
                return None;
            },
            Some(dg) => {
                proof {
                    lemma_digits_value_grows(p, radix as nat, v@[i as int]);
                }
                if !over {
                    let next = acc.checked_mul(radix);
                    match next {
                        None => {
                            over = true;
                            assert(acc * radix > u64::MAX);
                        },
                        Some(m) => {
                            let n2 = m.checked_add(dg);
                            match n2 {
                                None => {
                                    over = true;
                                },
                                Some(n) => {
                                    if n > max {
                                        over = true;
                                    } else {
                                        acc = n;
                                    }
                                },
                            }
                        },
                    }
                }
                assert(all_digits(q, radix as nat)) by {
                    assert forall|j: int| 0 <= j < q.len() implies is_digit(#[trigger] q[j], radix as nat) by {
                        if j < p.len() {
                            assert(q[j] == p[j]);
                        }
                    }
                }
            },
        }
        i = i + 1;
    }
    assert(v@.subrange(start as int, hi as int) == d);
    if over {
        None
    } else {
        Some(acc)
    }
}

// ---------------------------------------------------------------------------
// Formatting
// ---------------------------------------------------------------------------

/// The character of digit `d` (below 16; lower-case letters above 9).
pub open spec fn digit_char(d: nat) -> char {
    if d < 10 {
        (48 + d) as char
    } else {
        (87 + d) as char
    }
}

/// The decimal numeral of `n`, as `{}` formats an unsigned integer.
pub open spec fn decimal(n: nat) -> Seq<char>
    decreases n,
{
    if n < 10 {
        seq![digit_char(n)]
    } else {
        decimal(n / 10).push(digit_char(n % 10))
    }
}

/// The last `w` hexadecimal digits of `n`, most significant first.
pub open spec fn hex_fixed(n: nat, w: nat) -> Seq<char>
    decreases w,
{
    if w == 0 {
        seq![]
    } else {
        hex_fixed(n / 16, (w - 1) as nat).push(digit_char(n % 16))
    }
}

/// `{:016x}` of a `u64`: sixteen lower-case hexadecimal digits.
pub open spec fn hex16(n: u64) -> Seq<char> {
    hex_fixed(n as nat, 16)
}

/// The character of a digit below 16.
fn digit_char_exec(d: u64) -> (c: char)
    requires
        d < 16,
    ensures
        c == digit_char(d as nat),
{
    if d < 10 {
        ((48 + d) as u8) as char
    } else {
        ((87 + d) as u8) as char
    }
}

/// The decimal numeral of `n` (`n.to_string()`).
pub fn decimal_chars(n: usize) -> (r: Vec<char>)
    ensures
        r@ == decimal(n as nat),
{
    let mut acc: Vec<char> = Vec::new();
    let mut rem = n;
    assert(decimal(n as nat) == decimal(rem as nat) + acc@);
    while rem >= 10
        invariant
            decimal(n as nat) == decimal(rem as nat) + acc@,
        decreases rem,
    {
        let c = digit_char_exec((rem % 10) as u64);
        let ghost old_acc = acc@;
        acc.insert(0, c);
        assert(acc@ == seq![c] + old_acc);
        assert(decimal(rem as nat) == decimal((rem / 10) as nat).push(c));
        assert(decimal((rem / 10) as nat).push(c) + old_acc == decimal((rem / 10) as nat) + (seq![c] + old_acc));
        rem = rem / 10;
    }
    let c = digit_char_exec(rem as u64);
    let ghost old_acc = acc@;
    acc.insert(0, c);
    assert(acc@ == seq![c] + old_acc);
    acc
}

/// `{:016x}` of `n`.
pub fn hex16_chars(n: u64) -> (r: Vec<char>)
    ensures
        r@ == hex16(n),
{
    let mut acc: Vec<char> = Vec::new();
    let mut rem = n;
    let mut i: u64 = 0;
    assert(hex_fixed(n as nat, 16) == hex_fixed(rem as nat, 16) + acc@);
    while i < 16
        invariant
            i <= 16,
            hex_fixed(n as nat, 16) == hex_fixed(rem as nat, (16 - i) as nat) + acc@,
        decreases 16 - i,
    {
        let c = digit_char_exec(rem % 16);
        let ghost old_acc = acc@;
        acc.insert(0, c);
        assert(acc@ == seq![c] + old_acc);
        let ghost w = (16 - i) as nat;
        assert(hex_fixed(rem as nat, w) == hex_fixed((rem / 16) as nat, (w - 1) as nat).push(c));
        assert(hex_fixed((rem / 16) as nat, (w - 1) as nat).push(c) + old_acc == hex_fixed((rem / 16) as nat, (w - 1) as nat) + (seq![c] + old_acc));
        rem = rem / 16;
        i = i + 1;
    }
    assert(hex_fixed(rem as nat, 0) + acc@ == acc@);
    acc
}

// ---------------------------------------------------------------------------
// Round trips
// ---------------------------------------------------------------------------

proof fn lemma_digit_char(d: nat, radix: nat)
    requires
        d < radix,
        radix == 10 || radix == 16,
    ensures
        is_digit(digit_char(d), radix),
        digit_value(digit_char(d)) == d,
        digit_char(d) != '+',
        digit_char(d) != ' ',
        digit_char(d) != '\n',
        digit_char(d) != '\r',
{
}

/// The decimal numeral of `n` consists of digits denoting `n`.
pub proof fn lemma_decimal_value(n: nat)
    ensures
        decimal(n).len() > 0,
        all_digits(decimal(n), 10),
        digits_value(decimal(n), 10) == n,
        decimal(n)[0] != '+',
    decreases n,
{
    if n < 10 {
        lemma_digit_char(n, 10);
        assert(seq![digit_char(n)].drop_last() == Seq::<char>::empty());
        assert(digits_value(Seq::<char>::empty(), 10) == 0);
        assert(seq![digit_char(n)].last() == digit_char(n));
        assert(digits_value(seq![digit_char(n)], 10) == 0 * 10 + digit_value(digit_char(n)));
    } else {
        lemma_decimal_value(n / 10);
        lemma_digit_char(n % 10, 10);
        let p = decimal(n / 10);
        assert(p.push(digit_char(n % 10)).drop_last() == p);
        assert(p.push(digit_char(n % 10))[0] == p[0]);
        assert(all_digits(decimal(n), 10)) by {
            assert forall|j: int| 0 <= j < decimal(n).len() implies is_digit(
                #[trigger] decimal(n)[j],
                10,
            ) by {
                if j < p.len() {
                    assert(decimal(n)[j] == p[j]);
                }
            }
        }
        assert(n == 10 * (n / 10) + n % 10) by {
            lemma_fundamental_div_mod(n as int, 10);
        }
        assert(p.push(digit_char(n % 10)).last() == digit_char(n % 10));
        assert(digits_value(decimal(n), 10) == digits_value(p, 10) * 10 + n % 10);
    }
}

/// Powers of sixteen.
pub open spec fn pow16(w: nat) -> nat
    decreases w,
{
    if w == 0 {
        1
    } else {
        16 * pow16((w - 1) as nat)
    }
}

/// The last `w` hexadecimal digits of `n` denote `n % 16^w`.
pub proof fn lemma_hex_fixed_value(n: nat, w: nat)
    ensures
        hex_fixed(n, w).len() == w,
        all_digits(hex_fixed(n, w), 16),
        digits_value(hex_fixed(n, w), 16) == n % pow16(w),
        forall|j: int|
            0 <= j < w ==> #[trigger] hex_fixed(n, w)[j] != ' ' && hex_fixed(n, w)[j] != '\n'
                && hex_fixed(n, w)[j] != '+' && hex_fixed(n, w)[j] != '\r',
    decreases w,
{
    if w == 0 {
    } else {
        let w1 = (w - 1) as nat;
        lemma_hex_fixed_value(n / 16, w1);
        lemma_digit_char(n % 16, 16);
        let p = hex_fixed(n / 16, w1);
        let c = digit_char(n % 16);
        assert(p.push(c).drop_last() == p);
        assert forall|j: int| 0 <= j < w implies is_digit(#[trigger] hex_fixed(n, w)[j], 16)
            && hex_fixed(n, w)[j] != ' ' && hex_fixed(n, w)[j] != '\n' && hex_fixed(n, w)[j]
            != '+' && hex_fixed(n, w)[j] != '\r' by {
            if j < w1 {
                assert(hex_fixed(n, w)[j] == p[j]);
            }
        }
        assert(pow16(w1) > 0) by {
            lemma_pow16_positive(w1);
        }
        assert(n % (16 * pow16(w1)) == 16 * ((n / 16) % pow16(w1)) + n % 16) by {
            lemma_mod_breakdown(n as int, 16, pow16(w1) as int);
        }
    }
}

proof fn lemma_pow16_positive(w: nat)
    ensures
        pow16(w) > 0,
    decreases w,
{
    if w > 0 {
        lemma_pow16_positive((w - 1) as nat);
    }
}

/// `{:016x}` of `n` is sixteen hexadecimal digits denoting `n`.
pub proof fn lemma_hex16_value(n: u64)
    ensures
        hex16(n).len() == 16,
        all_digits(hex16(n), 16),
        digits_value(hex16(n), 16) == n,
        forall|j: int|
            0 <= j < 16 ==> #[trigger] hex16(n)[j] != ' ' && hex16(n)[j] != '\n' && hex16(n)[j]
                != '+' && hex16(n)[j] != '\r',
{
    lemma_hex_fixed_value(n as nat, 16);
    assert(pow16(16) == 0x1_0000_0000_0000_0000) by {
        reveal_with_fuel(pow16, 17);
    }
}

/// Parsing the decimal numeral of `n` gives `n` back.
pub proof fn lemma_parse_decimal(n: nat, max: nat)
    requires
        n <= max,
    ensures
        parse_unsigned(decimal(n), 10, max) == Some(n),
{
    lemma_decimal_value(n);
}

/// Parsing `{:016x}` of `n` in base 16 gives `n` back.
pub proof fn lemma_parse_hex16(n: u64)
    ensures
        parse_unsigned(hex16(n), 16, u64::MAX as nat) == Some(n as nat),
{
    lemma_hex16_value(n);
    assert(hex16(n)[0] != '+');
}

} // verus!
