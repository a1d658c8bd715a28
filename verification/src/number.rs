//! Reading and writing unsigned integers as ASCII text in a given radix.

use vstd::prelude::*;

verus! {

/// The value of an ASCII alphanumeric byte as a digit (`'0'..='9'`, then
/// `'a'..='z'` or `'A'..='Z'` from ten up); 36 for any other byte.
pub open spec fn digit_value(b: u8) -> nat {
    if 48 <= b <= 57 {
        (b - 48) as nat
    } else if 97 <= b <= 122 {
        (b - 87) as nat
    } else if 65 <= b <= 90 {
        (b - 55) as nat
    } else {
        36
    }
}

/// `b` is a digit of the given radix.
pub open spec fn is_radix_digit(b: u8, radix: nat) -> bool {
    digit_value(b) < radix
}

/// Every byte of `s` is a digit of the given radix.
pub open spec fn all_radix_digits(s: Seq<u8>, radix: nat) -> bool {
    forall|i: int| 0 <= i < s.len() ==> #[trigger] is_radix_digit(s[i], radix)
}

/// The number that the digits `s` denote, most significant first.
pub open spec fn digits_value(s: Seq<u8>, radix: nat) -> nat
    decreases s.len(),
{
    if s.len() == 0 {
        0
    } else {
        digits_value(s.drop_last(), radix) * radix + digit_value(s.last())
    }
}

/// The digits that an unsigned parse reads: all of `s` but an optional
/// leading `'+'`.
pub open spec fn unsigned_digits(s: Seq<u8>) -> Seq<u8> {
    if s.len() > 0 && s[0] == 43u8 {
        s.drop_first()
    } else {
        s
    }
}

/// What an unsigned `from_str_radix` reads from `s`, with no bound on the
/// value: an optional `'+'` and at least one digit, nothing else.
pub open spec fn parse_unsigned(s: Seq<u8>, radix: nat) -> Option<nat> {
    let ds = unsigned_digits(s);
    if ds.len() > 0 && all_radix_digits(ds, radix) {
        Some(digits_value(ds, radix))
    } else {
        None
    }
}

/// `parse_unsigned`, refused where the value exceeds `max`.
pub open spec fn parse_bounded(s: Seq<u8>, radix: nat, max: nat) -> Option<nat> {
    match parse_unsigned(s, radix) {
        Some(v) => if v <= max {
            Some(v)
        } else {
            None
        },
        None => None,
    }
}

/// The value of `b` as a digit, as `digit_value` states it.
pub fn digit_of(b: u8) -> (d: u32)
    ensures
        d == digit_value(b),
{
    if 48 <= b && b <= 57 {
        (b - 48) as u32
    } else if 97 <= b && b <= 122 {
        (b - 87) as u32
    } else if 65 <= b && b <= 90 {
        (b - 55) as u32
    } else {
        36
    }
}

proof fn lemma_digits_value_step(s: Seq<u8>, radix: nat, j: int)
    requires
        0 <= j < s.len(),
    ensures
        digits_value(s.take(j + 1), radix) == digits_value(s.take(j), radix) * radix
            + digit_value(s[j]),
{
    assert(s.take(j + 1).drop_last() =~= s.take(j));
}

/// Reads an unsigned integer as `u64::from_str_radix` does, refusing any
/// value above `max`.
pub fn parse_unsigned_bytes(s: &[u8], radix: u32, max: u64) -> (r: Option<u64>)
    requires
        2 <= radix <= 36,
    ensures
        match parse_bounded(s@, radix as nat, max as nat) {
            Some(v) => r == Some(v as u64),
            None => r is None,
        },
{
    let len = s.len();
    let start: usize = if len > 0 && s[0] == 43u8 {
        1
    } else {
        0
    };
    let ghost ds = unsigned_digits(s@);
    assert(ds =~= s@.subrange(start as int, len as int));
    if start == len {
        return None;
    }
    let mut acc: u64 = 0;
    let mut overflow = false;
    let mut i: usize = start;
    assert(ds.take(0) =~= Seq::<u8>::empty());
    while i < len
        invariant
            start <= i <= len,
            len == s@.len(),
            start < len,
            ds =~= s@.subrange(start as int, len as int),
            ds == unsigned_digits(s@),
            2 <= radix <= 36,
            forall|k: int| 0 <= k < i - start ==> #[trigger] is_radix_digit(ds[k], radix as nat),
            !overflow ==> acc == digits_value(ds.take(i - start), radix as nat),
            !overflow ==> acc <= max,
            overflow ==> digits_value(ds.take(i - start), radix as nat) > max,
        decreases len - i,
    {
        let d = digit_of(s[i]);
        let ghost j: int = i - start;
        assert(ds[j] == s@[i as int]);
        if d >= radix {
            assert(!is_radix_digit(ds[j], radix as nat));
            assert(!all_radix_digits(ds, radix as nat));
            assert(parse_unsigned(s@, radix as nat) is None);
            return None;
        }
        proof {
            lemma_digits_value_step(ds, radix as nat, j);
        }
        if overflow {
            let ghost prev = digits_value(ds.take(j), radix as nat);
            assert(prev * radix + d > max) by (nonlinear_arith)
                requires
                    prev > max,
                    radix >= 2,
                    d >= 0,
            ;
        } else {
            assert((acc as u128) * (radix as u128) <= 0xffff_ffff_ffff_ffffu128 * 36) by (nonlinear_arith)
                requires
                    acc <= 0xffff_ffff_ffff_ffffu64,
                    radix <= 36,
            ;
            let next: u128 = (acc as u128) * (radix as u128) + (d as u128);
            if next > max as u128 {
                overflow = true;
            } else {
                acc = next as u64;
            }
        }
        i = i + 1;
    }
    assert(ds.take(len - start) =~= ds);
    if overflow {
        None
    } else {
        Some(acc)
    }
}

/// The ASCII character of a digit below 36, with upper- or lower-case
/// letters.
pub open spec fn digit_char(d: nat, upper: bool) -> u8 {
    if d < 10 {
        (48 + d) as u8
    } else if upper {
        (55 + d) as u8
    } else {
        (87 + d) as u8
    }
}

/// The digits of `n` in the given radix, most significant first, with no
/// leading zeros (a single `'0'` for zero).
pub open spec fn radix_digits(n: nat, radix: nat, upper: bool) -> Seq<u8>
    decreases n,
{
    if radix < 2 || n < radix {
        seq![digit_char(n, upper)]
    } else {
        proof {
            vstd::arithmetic::div_mod::lemma_div_decreases(n as int, radix as int);
        }
        radix_digits(n / radix, radix, upper).push(digit_char(n % radix, upper))
    }
}

/// `s` with `fill` in front until it is `width` long.
pub open spec fn pad_left(s: Seq<u8>, width: nat, fill: u8) -> Seq<u8> {
    if s.len() < width {
        Seq::new((width - s.len()) as nat, |i: int| fill) + s
    } else {
        s
    }
}

/// The character of digit `d`, as `digit_char` states it.
pub fn digit_char_of(d: u64, upper: bool) -> (c: u8)
    requires
        d < 36,
    ensures
        c == digit_char(d as nat, upper),
{
    if d < 10 {
        (48 + d) as u8
    } else if upper {
        (55 + d) as u8
    } else {
        (87 + d) as u8
    }
}

/// Writes `n` in the given radix, with no leading zeros.
pub fn format_radix(n: u64, radix: u64, upper: bool) -> (r: Vec<u8>)
    requires
        2 <= radix <= 36,
    ensures
        r@ == radix_digits(n as nat, radix as nat, upper),
    decreases n,
{
    if n < radix {
        let mut v: Vec<u8> = Vec::new();
        v.push(digit_char_of(n, upper));
        v
    } else {
        proof {
            vstd::arithmetic::div_mod::lemma_div_decreases(n as int, radix as int);
        }
        let mut v = format_radix(n / radix, radix, upper);
        v.push(digit_char_of(n % radix, upper));
        v
    }
}

/// Puts `fill` in front of `s` until it is `width` long.
pub fn pad_left_bytes(s: Vec<u8>, width: usize, fill: u8) -> (r: Vec<u8>)
    ensures
        r@ == pad_left(s@, width as nat, fill),
{
    if s.len() >= width {
        return s;
    }
    let n = width - s.len();
    let mut r: Vec<u8> = Vec::new();
    let mut i: usize = 0;
    while i < n
        invariant
            i <= n,
            r@ =~= Seq::new(i as nat, |k: int| fill),
        decreases n - i,
    {
        r.push(fill);
        i = i + 1;
    }
    let mut j: usize = 0;
    let ghost head = r@;
    while j < s.len()
        invariant
            j <= s.len(),
            r@ =~= head + s@.take(j as int),
        decreases s.len() - j,
    {
        r.push(s[j]);
        j = j + 1;
    }
    assert(s@.take(s.len() as int) =~= s@);
    r
}

proof fn lemma_digit_char_value(d: nat, radix: nat, upper: bool)
    requires
        d < radix <= 36,
    ensures
        digit_value(digit_char(d, upper)) == d,
        is_radix_digit(digit_char(d, upper), radix),
        digit_char(d, upper) != 43u8,
{
}

/// The digits that `radix_digits` writes read back as the number written.
pub proof fn lemma_radix_digits_value(n: nat, radix: nat, upper: bool)
    requires
        2 <= radix <= 36,
    ensures
        radix_digits(n, radix, upper).len() > 0,
        all_radix_digits(radix_digits(n, radix, upper), radix),
        digits_value(radix_digits(n, radix, upper), radix) == n,
        radix_digits(n, radix, upper)[0] != 43u8,
    decreases n,
{
    let s = radix_digits(n, radix, upper);
    if n < radix {
        lemma_digit_char_value(n, radix, upper);
        assert(s.drop_last() =~= Seq::<u8>::empty());
        assert(digits_value(s.drop_last(), radix) == 0);
        assert(digits_value(s, radix) == 0 * radix + n);
    } else {
        vstd::arithmetic::div_mod::lemma_div_decreases(n as int, radix as int);
        vstd::arithmetic::div_mod::lemma_fundamental_div_mod(n as int, radix as int);
        vstd::arithmetic::div_mod::lemma_mod_bound(n as int, radix as int);
        let prefix = radix_digits(n / radix, radix, upper);
        lemma_radix_digits_value(n / radix, radix, upper);
        lemma_digit_char_value(n % radix, radix, upper);
        assert(s.drop_last() =~= prefix);
        assert(s[0] == prefix[0]);
        assert forall|i: int| 0 <= i < s.len() implies #[trigger] is_radix_digit(s[i], radix) by {
            if i < prefix.len() {
                assert(s[i] == prefix[i]);
            }
        }
        assert(digits_value(s, radix) == (n / radix) * radix + n % radix);
    }
}

proof fn lemma_zeros_value(z: Seq<u8>, radix: nat)
    requires
        forall|i: int| 0 <= i < z.len() ==> z[i] == 48u8,
    ensures
        digits_value(z, radix) == 0,
    decreases z.len(),
{
    if z.len() > 0 {
        lemma_zeros_value(z.drop_last(), radix);
        assert(z.last() == 48u8);
        assert(digits_value(z, radix) == 0 * radix + 0);
    }
}

proof fn lemma_leading_zeros_value(z: Seq<u8>, s: Seq<u8>, radix: nat)
    requires
        forall|i: int| 0 <= i < z.len() ==> z[i] == 48u8,
    ensures
        digits_value(z + s, radix) == digits_value(s, radix),
    decreases s.len(),
{
    if s.len() == 0 {
        assert(z + s =~= z);
        lemma_zeros_value(z, radix);
    } else {
        lemma_leading_zeros_value(z, s.drop_last(), radix);
        assert((z + s).drop_last() =~= z + s.drop_last());
    }
}

/// The digits of `n`, zero-padded on the left, read back as `n`.
pub proof fn lemma_parse_padded(n: nat, radix: nat, width: nat, upper: bool)
    requires
        2 <= radix <= 36,
    ensures
        parse_unsigned(pad_left(radix_digits(n, radix, upper), width, 48u8), radix) == Some(n),
{
    let s = radix_digits(n, radix, upper);
    lemma_radix_digits_value(n, radix, upper);
    let p = pad_left(s, width, 48u8);
    if s.len() < width {
        let z = Seq::new((width - s.len()) as nat, |i: int| 48u8);
        assert(p == z + s);
        lemma_leading_zeros_value(z, s, radix);
        assert(p[0] == 48u8);
        assert(unsigned_digits(p) == p);
        assert forall|i: int| 0 <= i < p.len() implies #[trigger] is_radix_digit(p[i], radix) by {
            if i >= z.len() {
                assert(p[i] == s[i - z.len()]);
            }
        }
    } else {
        assert(unsigned_digits(p) == p);
    }
}

/// A number below `radix^k` has at most `k` digits.
pub proof fn lemma_radix_digits_len(n: nat, radix: nat, upper: bool, k: nat)
    requires
        2 <= radix <= 36,
        n < vstd::arithmetic::power::pow(radix as int, k),
    ensures
        radix_digits(n, radix, upper).len() <= if k == 0 { 1 } else { k },
    decreases n,
{
    if n >= radix {
        vstd::arithmetic::div_mod::lemma_div_decreases(n as int, radix as int);
        if k == 0 {
            vstd::arithmetic::power::lemma_pow0(radix as int);
        } else {
            vstd::arithmetic::power::lemma_pow_adds(radix as int, 1, (k - 1) as nat);
            vstd::arithmetic::power::lemma_pow1(radix as int);
            let p = vstd::arithmetic::power::pow(radix as int, (k - 1) as nat);
            let q = n as int / radix as int;
            let r = n as int % radix as int;
            vstd::arithmetic::div_mod::lemma_fundamental_div_mod(n as int, radix as int);
            vstd::arithmetic::div_mod::lemma_mod_bound(n as int, radix as int);
            assert(q < p) by (nonlinear_arith)
                requires
                    n == radix * q + r,
                    0 <= r,
                    n < radix * p,
                    radix > 0,
            ;
            if k == 1 {
                vstd::arithmetic::power::lemma_pow0(radix as int);
            }
            lemma_radix_digits_len(n / radix, radix, upper, (k - 1) as nat);
        }
    }
}

} // verus!
