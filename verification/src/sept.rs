//! Seven-character codes for 32-bit numbers.

use vstd::prelude::*;

verus! {

/// The largest number written in decimal.
pub const DEC_MAX: u32 = 9_999_999;

/// The largest hexadecimal code value.
pub const HEX_MAX: u32 = 0x0FFF_FFFF;

/// The hexadecimal code value just before that of the first number written
/// in hexadecimal, so that its code starts with `A`.
pub const HEX_PAD: u32 = 0x09FF_FFFF;

/// The largest number written in hexadecimal.
pub const HEX_LAST: u32 = 110_663_295;

/// The base-32 code value just before that of the first number written in
/// base 32.
pub const C32_PAD: u64 = 0x4_3FFF_FFFF;

/// The digits of every base used, in order.
pub open spec fn sept_alphabet() -> Seq<char> {
    seq![
        '0', '1', '2', '3', '4', '5', '6', '7', '8', '9', 'A', 'B', 'C', 'D', 'E', 'F', 'G', 'H',
        'J', 'K', 'M', 'N', 'P', 'Q', 'R', 'S', 'T', 'V', 'W', 'X', 'Y', 'Z',
    ]
}

/// `base` to the power `exp`.
pub open spec fn pw(base: nat, exp: nat) -> nat
    decreases exp,
{
    if exp == 0 {
        1
    } else {
        base * pw(base, (exp - 1) as nat)
    }
}

/// The base that `n` is written in: 10 up to [`DEC_MAX`], then 16, then 32.
pub open spec fn sept_base(n: u32) -> nat {
    if n <= DEC_MAX {
        10
    } else if n <= HEX_LAST {
        16
    } else {
        32
    }
}

/// The value written for `n`, in [`sept_base`]: `n` itself in decimal;
/// offset so that the code starts with `A` in hexadecimal, and with `H` in
/// base 32.
pub open spec fn sept_value(n: u32) -> nat {
    if n <= DEC_MAX {
        n as nat
    } else if n <= HEX_LAST {
        (n - DEC_MAX + HEX_PAD) as nat
    } else {
        (n - HEX_LAST + C32_PAD) as nat
    }
}

/// Digit `k` (counting from the most significant) of the seven-digit
/// representation of `value` in `base`.
pub open spec fn digit(value: nat, base: nat, k: int) -> nat {
    (value / pw(base, (6 - k) as nat)) % base
}

/// The seven-character code of `n`.
pub open spec fn sept_chars(n: u32) -> Seq<char> {
    Seq::new(7, |k: int| sept_alphabet()[digit(sept_value(n), sept_base(n), k) as int])
}

proof fn lemma_powers()
    ensures
        pw(10, 6) == 1_000_000,
        pw(10, 7) == 10_000_000,
        pw(16, 6) == 0x100_0000,
        pw(16, 7) == 0x1000_0000,
        pw(32, 6) == 0x4000_0000,
        pw(32, 7) == 0x8_0000_0000,
{
    reveal_with_fuel(pw, 8);
}

proof fn lemma_pw_positive(base: nat, exp: nat)
    requires
        base > 0,
    ensures
        pw(base, exp) > 0,
    decreases exp,
{
    if exp > 0 {
        lemma_pw_positive(base, (exp - 1) as nat);
        assert(base * pw(base, (exp - 1) as nat) > 0) by (nonlinear_arith)
            requires
                base > 0,
                pw(base, (exp - 1) as nat) > 0,
        ;
    }
}

/// Reading the digits from the most significant: the value of the first
/// `k + 1` digits is the value of the first `k`, times the base, plus digit
/// `k`.
proof fn lemma_digit_step(value: nat, base: nat, k: int)
    requires
        base > 1,
        0 <= k < 7,
    ensures
        value / pw(base, (6 - k) as nat) == (value / pw(base, (7 - k) as nat)) * base + digit(
            value,
            base,
            k,
        ),
{
    let p = pw(base, (6 - k) as nat);
    lemma_pw_positive(base, (6 - k) as nat);
    assert(pw(base, (7 - k) as nat) == base * p);
    let q = value / p;
    vstd::arithmetic::div_mod::lemma_div_denominator(value as int, p as int, base as int);
    assert(q / base == value / (p * base));
    assert(p * base == base * p) by (nonlinear_arith);
    vstd::arithmetic::div_mod::lemma_fundamental_div_mod(q as int, base as int);
    assert(q == base * (q / base) + q % base);
    assert(base * (q / base) == (q / base) * base) by (nonlinear_arith);
}

/// The code value is below the base to the seventh power, and its first
/// digit is below 10 in decimal, between 10 and 15 in hexadecimal, and at
/// least 17 in base 32.
proof fn lemma_sept_value_range(n: u32)
    ensures
        sept_value(n) < pw(sept_base(n), 7),
        sept_base(n) == 10 ==> digit(sept_value(n), 10, 0) < 10,
        sept_base(n) == 16 ==> 10 <= digit(sept_value(n), 16, 0) < 16,
        sept_base(n) == 32 ==> 17 <= digit(sept_value(n), 32, 0) < 32,
{
    lemma_powers();
    let v = sept_value(n);
    if n <= DEC_MAX {
        assert(v / 1_000_000 < 10);
    } else if n <= HEX_LAST {
        assert(0x0A00_0000 <= v <= 0x0FFF_FFFF);
        assert(10 <= v / 0x100_0000 < 16);
    } else {
        assert(0x4_4000_0000 <= v < 0x8_0000_0000);
        assert(17 <= v / 0x4000_0000 < 32);
    }
}

/// The code uses only the digits of its base.
proof fn lemma_digit_bound(value: nat, base: nat, k: int)
    requires
        base > 0,
    ensures
        digit(value, base, k) < base,
{
}

/// Distinct digit values are written with distinct characters.
proof fn lemma_alphabet_distinct(i: int, j: int)
    requires
        0 <= i < 32,
        0 <= j < 32,
        sept_alphabet()[i] == sept_alphabet()[j],
    ensures
        i == j,
{
}

/// The seven-character code of `n`. Numbers that fit in seven decimal digits
/// are written in zero-padded decimal. Larger ones that fit in seven
/// hexadecimal digits are written in hexadecimal, offset so that the first
/// digit is always `A` or later, to avoid confusion with decimal. The rest
/// are written in base 32 (with the digits `0-9`, then the letters except
/// `I`, `L`, `O` and `U`), offset so that the first digit is always `H` or
/// later, to avoid confusion with hexadecimal and decimal.
pub fn sept(n: u32) -> (code: String)
    ensures
        code@ == sept_chars(n),
{
    let alphabet = "0123456789ABCDEFGHJKMNPQRSTVWXYZ";
    proof {
        reveal_strlit("0123456789ABCDEFGHJKMNPQRSTVWXYZ");
        assert(alphabet@ =~= sept_alphabet());
    }
    let n64 = n as u64;
    let base: u64;
    let value: u64;
    if n <= DEC_MAX {
        base = 10;
        value = n64;
    } else if n <= HEX_LAST {
        base = 16;
        value = n64 - DEC_MAX as u64 + HEX_PAD as u64;
    } else {
        base = 32;
        value = n64 - HEX_LAST as u64 + C32_PAD;
    }
    assert(base == sept_base(n) && value == sept_value(n));
    let mut digits: Vec<u64> = vec![0u64; 7];
    let mut rest = value;
    proof {
        assert(pw(base as nat, 0) == 1);
        assert(value as nat / 1 == value);
    }
    let mut k: usize = 7;
    while k > 0
        invariant
            k <= 7,
            digits@.len() == 7,
            base == sept_base(n),
            value == sept_value(n),
            rest == value as nat / pw(base as nat, (7 - k) as nat),
            forall|j: int| k <= j < 7 ==> digits@[j] == digit(value as nat, base as nat, j),
        decreases k,
    {
        k = k - 1;
        proof {
            lemma_digit_step(value as nat, base as nat, k as int);
            lemma_pw_positive(base as nat, (6 - k) as nat);
            vstd::arithmetic::div_mod::lemma_div_denominator(
                value as int,
                pw(base as nat, (7 - k - 1) as nat) as int,
                base as int,
            );
            assert(pw(base as nat, (7 - k) as nat) == base * pw(base as nat, (6 - k) as nat));
            assert(pw(base as nat, (6 - k) as nat) * base == base * pw(base as nat, (6 - k) as nat))
                by (nonlinear_arith);
        }
        digits.set(k, rest % base);
        rest = rest / base;
    }
    let mut code = String::new();
    let mut j: usize = 0;
    while j < 7
        invariant
            j <= 7,
            digits@.len() == 7,
            alphabet@ == sept_alphabet(),
            base == sept_base(n),
            value == sept_value(n),
            forall|i: int| 0 <= i < 7 ==> digits@[i] == digit(value as nat, base as nat, i),
            code@ == sept_chars(n).take(j as int),
        decreases 7 - j,
    {
        proof {
            lemma_digit_bound(value as nat, base as nat, j as int);
        }
        let d = digits[j] as usize;
        let piece = alphabet.substring_ascii(d, d + 1);
        code.append(piece);
        j = j + 1;
        assert(code@ =~= sept_chars(n).take(j as int));
    }
    assert(sept_chars(n).take(7) =~= sept_chars(n));
    code
}

/// Every code has seven characters. Codes of numbers up to [`DEC_MAX`] start
/// with a decimal digit; codes of larger numbers up to [`HEX_LAST`] start
/// with a letter from `A` to `F`; all others start with a letter from `H` on.
pub proof fn lemma_sept_leading_digit(n: u32)
    ensures
        sept_chars(n).len() == 7,
        n <= DEC_MAX ==> '0' <= sept_chars(n)[0] <= '9',
        DEC_MAX < n <= HEX_LAST ==> 'A' <= sept_chars(n)[0] <= 'F',
        HEX_LAST < n ==> 'H' <= sept_chars(n)[0] <= 'Z',
{
    lemma_sept_value_range(n);
    let d = digit(sept_value(n), sept_base(n), 0);
    assert(sept_chars(n)[0] == sept_alphabet()[d as int]);
    assert(forall|i: int| 0 <= i < 10 ==> '0' <= #[trigger] sept_alphabet()[i] <= '9');
    assert(forall|i: int| 10 <= i < 16 ==> 'A' <= #[trigger] sept_alphabet()[i] <= 'F');
    assert(forall|i: int| 17 <= i < 32 ==> 'H' <= #[trigger] sept_alphabet()[i] <= 'Z');
}

/// Whether `code` is the seven-character code of some number.
pub open spec fn is_sept(code: Seq<char>) -> bool {
    exists|n: u32| sept_chars(n) == code
}

fn digit_index(alphabet: &str, c: char) -> (index: u64)
    requires
        alphabet@ == sept_alphabet(),
        sept_alphabet().contains(c),
    ensures
        index < 32,
        sept_alphabet()[index as int] == c,
{
    let mut i: usize = 0;
    while i < 32
        invariant
            i <= 32,
            alphabet@ == sept_alphabet(),
            sept_alphabet().contains(c),
            forall|j: int| 0 <= j < i ==> sept_alphabet()[j] != c,
        decreases 32 - i,
    {
        if alphabet.get_char(i) == c {
            return i as u64;
        }
        i = i + 1;
    }
    proof {
        let j = choose|j: int| 0 <= j < 32 && sept_alphabet()[j] == c;
        assert(sept_alphabet()[j] != c);
    }
    0
}

/// Whether code `a` comes before code `b`: at the first place where they
/// differ, `a` has the smaller character.
pub open spec fn code_before(a: Seq<char>, b: Seq<char>) -> bool {
    exists|k: int|
        0 <= k < a.len() && k < b.len() && #[trigger] a.take(k) == b.take(k) && (a[k] as int) < (b[k] as int)
}

/// The digits of the alphabet are in increasing order.
proof fn lemma_alphabet_increasing(i: int, j: int)
    requires
        0 <= i < j < 32,
    ensures
        (sept_alphabet()[i] as int) < (sept_alphabet()[j] as int),
{
}

/// Where `vm < vn` are both written with seven digits in `base`, and their
/// first `k` digits agree, there is a first place from `k` on where they
/// differ, and there `vm` has the smaller digit.
proof fn lemma_first_difference(vm: nat, vn: nat, base: nat, k: int) -> (at: int)
    requires
        1 < base,
        vm < vn < pw(base, 7),
        0 <= k <= 7,
        vm / pw(base, (7 - k) as nat) == vn / pw(base, (7 - k) as nat),
        forall|j: int| 0 <= j < k ==> digit(vm, base, j) == digit(vn, base, j),
    ensures
        k <= at < 7,
        forall|j: int| 0 <= j < at ==> digit(vm, base, j) == digit(vn, base, j),
        digit(vm, base, at) < digit(vn, base, at),
    decreases 7 - k,
{
    if k == 7 {
        assert(pw(base, 0) == 1);
        assert(vm / 1 == vm && vn / 1 == vn);
        assert(false);
        0
    } else {
        lemma_digit_step(vm, base, k);
        lemma_digit_step(vn, base, k);
        lemma_pw_positive(base, (6 - k) as nat);
        vstd::arithmetic::div_mod::lemma_div_is_ordered(vm as int, vn as int, pw(base, (6 - k) as nat) as int);
        if digit(vm, base, k) == digit(vn, base, k) {
            lemma_first_difference(vm, vn, base, k + 1)
        } else {
            k
        }
    }
}

/// Codes sort in the order of their numbers: the code of a smaller number
/// comes before the code of a larger one.
pub proof fn law_sept_order(m: u32, n: u32)
    requires
        m < n,
    ensures
        code_before(sept_chars(m), sept_chars(n)),
{
    lemma_sept_leading_digit(m);
    lemma_sept_leading_digit(n);
    let (a, b) = (sept_chars(m), sept_chars(n));
    if sept_base(m) == sept_base(n) {
        let base = sept_base(m);
        lemma_sept_value_range(n);
        lemma_powers();
        let (vm, vn) = (sept_value(m), sept_value(n));
        lemma_sept_value_range(m);
        vstd::arithmetic::div_mod::lemma_basic_div(vm as int, pw(base, 7) as int);
        vstd::arithmetic::div_mod::lemma_basic_div(vn as int, pw(base, 7) as int);
        let k = lemma_first_difference(vm, vn, base, 0);
        lemma_digit_bound(vm, base, k);
        lemma_digit_bound(vn, base, k);
        lemma_alphabet_increasing(digit(vm, base, k) as int, digit(vn, base, k) as int);
        assert(a.take(k) =~= b.take(k));
        assert(a.take(k) == b.take(k) && (a[k] as int) < (b[k] as int));
    } else {
        assert(a.take(0) =~= b.take(0));
        assert(a.take(0) == b.take(0) && (a[0] as int) < (b[0] as int));
    }
}

/// Two numbers with the same code are the same number: the code of `n`
/// determines `n`.
pub proof fn lemma_sept_injective(m: u32, n: u32)
    requires
        sept_chars(m) == sept_chars(n),
    ensures
        m == n,
{
    lemma_sept_value_range(m);
    lemma_sept_value_range(n);
    let bm = sept_base(m);
    let bn = sept_base(n);
    lemma_digit_bound(sept_value(m), bm, 0);
    lemma_digit_bound(sept_value(n), bn, 0);
    assert(sept_chars(m)[0] == sept_chars(n)[0]);
    assert(sept_chars(m)[0] == sept_alphabet()[digit(sept_value(m), bm, 0) as int]);
    assert(sept_chars(n)[0] == sept_alphabet()[digit(sept_value(n), bn, 0) as int]);
    lemma_alphabet_distinct(
        digit(sept_value(m), bm, 0) as int,
        digit(sept_value(n), bn, 0) as int,
    );
    assert(bm == bn);
    assert forall|k: int| 0 <= k < 7 implies digit(sept_value(m), bm, k) == digit(
        sept_value(n),
        bn,
        k,
    ) by {
        lemma_digit_bound(sept_value(m), bm, k);
        lemma_digit_bound(sept_value(n), bn, k);
        assert(sept_chars(m)[k] == sept_chars(n)[k]);
        assert(sept_chars(m)[k] == sept_alphabet()[digit(sept_value(m), bm, k) as int]);
        assert(sept_chars(n)[k] == sept_alphabet()[digit(sept_value(n), bn, k) as int]);
        lemma_alphabet_distinct(digit(sept_value(m), bm, k) as int, digit(sept_value(n), bn, k) as int);
    }
    lemma_same_digits(sept_value(m), sept_value(n), bm, 7);
    lemma_powers();
    assert(pw(bm, 0) == 1);
}

/// Values whose first `k` digits agree agree when divided by the base to the
/// power `7 - k`.
proof fn lemma_same_digits(a: nat, b: nat, base: nat, k: int)
    requires
        base > 1,
        0 <= k <= 7,
        a < pw(base, 7),
        b < pw(base, 7),
        forall|j: int| 0 <= j < k ==> digit(a, base, j) == digit(b, base, j),
    ensures
        a / pw(base, (7 - k) as nat) == b / pw(base, (7 - k) as nat),
    decreases k,
{
    if k == 0 {
        lemma_pw_positive(base, 7);
        vstd::arithmetic::div_mod::lemma_basic_div(a as int, pw(base, 7) as int);
        vstd::arithmetic::div_mod::lemma_basic_div(b as int, pw(base, 7) as int);
    } else {
        lemma_same_digits(a, b, base, k - 1);
        lemma_digit_step(a, base, k - 1);
        lemma_digit_step(b, base, k - 1);
    }
}

/// The number whose seven-character code is `code`: the opposite of
/// [`sept`].
pub fn seven(code: &str) -> (n: u32)
    requires
        is_sept(code@),
    ensures
        sept_chars(n) == code@,
        forall|m: u32| sept_chars(m) == code@ ==> m == n,
{
    let ghost number = choose|m: u32| sept_chars(m) == code@;
    let alphabet = "0123456789ABCDEFGHJKMNPQRSTVWXYZ";
    proof {
        reveal_strlit("0123456789ABCDEFGHJKMNPQRSTVWXYZ");
        assert(alphabet@ =~= sept_alphabet());
        lemma_sept_value_range(number);
        lemma_digit_bound(sept_value(number), sept_base(number), 0);
        assert(code@[0] == sept_alphabet()[digit(sept_value(number), sept_base(number), 0) as int]);
    }
    let first = digit_index(alphabet, code.get_char(0));
    proof {
        lemma_alphabet_distinct(
            first as int,
            digit(sept_value(number), sept_base(number), 0) as int,
        );
    }
    let base: u64 = if first < 10 {
        10
    } else if first < 16 {
        16
    } else {
        32
    };
    assert(base == sept_base(number));
    let ghost value = sept_value(number);
    let mut total: u64 = 0;
    proof {
        lemma_powers();
        lemma_pw_positive(base as nat, 7);
        vstd::arithmetic::div_mod::lemma_basic_div(value as int, pw(base as nat, 7) as int);
    }
    let mut k: usize = 0;
    while k < 7
        invariant
            k <= 7,
            alphabet@ == sept_alphabet(),
            code@ == sept_chars(number),
            base == sept_base(number),
            value == sept_value(number),
            value < pw(base as nat, 7),
            pw(base as nat, 7) <= 0x8_0000_0000,
            total == value / pw(base as nat, (7 - k) as nat),
        decreases 7 - k,
    {
        proof {
            lemma_digit_bound(value, base as nat, k as int);
            lemma_digit_step(value, base as nat, k as int);
            lemma_pw_positive(base as nat, (6 - k) as nat);
            assert(value / pw(base as nat, (6 - k) as nat) <= value) by {
                vstd::arithmetic::div_mod::lemma_div_is_ordered_by_denominator(
                    value as int,
                    1,
                    pw(base as nat, (6 - k) as nat) as int,
                );
            }
        }
        let d = digit_index(alphabet, code.get_char(k));
        proof {
            lemma_alphabet_distinct(d as int, digit(value, base as nat, k as int) as int);
        }
        total = total * base + d;
        k = k + 1;
    }
    proof {
        lemma_powers();
        assert(pw(base as nat, 0) == 1);
        assert(total == value / pw(base as nat, 0));
        assert(value / 1 == value);
    }
    assert(total == value);
    let n: u32 = if base == 10 {
        total as u32
    } else if base == 16 {
        (total - HEX_PAD as u64 + DEC_MAX as u64) as u32
    } else {
        (total - C32_PAD + HEX_LAST as u64) as u32
    };
    assert(n == number);
    proof {
        assert forall|m: u32| sept_chars(m) == code@ implies m == n by {
            lemma_sept_injective(m, n);
        }
    }
    n
}

} // verus!
