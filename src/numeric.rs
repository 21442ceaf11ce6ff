//! Numeric fields of a header: ASCII numerals in base 8 or 10.
use vstd::prelude::*;
use vstd::arithmetic::div_mod::{
    lemma_add_mod_noop, lemma_mod_add_multiples_vanish, lemma_mul_mod_noop,
    lemma_mul_mod_noop_left, lemma_small_mod,
};
use vstd::arithmetic::power::pow;

verus! {

/// Arithmetic on `u32` is carried out modulo this number.
pub open spec fn word_modulus() -> int {
    0x1_0000_0000
}

/// What a character stands for as a digit: its code point less that of `'0'`.
/// Nothing is rejected, so a character below `'0'` gives a negative value.
pub open spec fn digit_value(c: char) -> int {
    c as int - '0' as int
}

/// The sum over all characters of `digit_value(c) * base^k`, where `k` is
/// the number of characters to the right of `c`.
pub open spec fn weighted_sum(s: Seq<char>, base: int) -> int
    decreases s.len(),
{
    if s.len() == 0 {
        0
    } else {
        digit_value(s[0]) * pow(base, (s.len() - 1) as nat) + weighted_sum(s.skip(1), base)
    }
}

/// What the decoder returns for `s` in base `base`: the weighted sum of the
/// digits, reduced to the range of a `u32`.
pub open spec fn decoded(s: Seq<char>, base: int) -> int {
    weighted_sum(s, base) % word_modulus()
}

proof fn lemma_wrapping_sub_mod(x: u32, y: u32)
    ensures
        x.wrapping_sub(y) as int == (x as int - y as int) % word_modulus(),
{
    let v = x as int - y as int;
    if v < 0 {
        lemma_mod_add_multiples_vanish(v, word_modulus());
        lemma_small_mod((v + word_modulus()) as nat, word_modulus() as nat);
    } else {
        lemma_small_mod(v as nat, word_modulus() as nat);
    }
}

proof fn lemma_wrapping_add_mod(x: u32, y: u32)
    ensures
        x.wrapping_add(y) as int == (x as int + y as int) % word_modulus(),
{
    let v = x as int + y as int;
    if v > u32::MAX {
        lemma_mod_add_multiples_vanish(v - word_modulus(), word_modulus());
        lemma_small_mod((v - word_modulus()) as nat, word_modulus() as nat);
    } else {
        lemma_small_mod(v as nat, word_modulus() as nat);
    }
}

/// Decodes `s` as a numeral in base `base`, walking from the rightmost
/// character to the leftmost with a positional weight that starts at 1 and
/// is multiplied by the base after each character. All arithmetic wraps.
fn str_to_u32(s: &str, base: u32) -> (r: u32)
    ensures
        r as int == decoded(s@, base as int),
{
    let n = s.unicode_len();
    let mut u: u32 = 0;
    let mut f: u32 = 1;
    let mut i: usize = n;
    proof {
        assert(s@.skip(n as int) =~= Seq::<char>::empty());
        lemma_small_mod(1, word_modulus() as nat);
        lemma_small_mod(0, word_modulus() as nat);
        vstd::arithmetic::power::lemma_pow0(base as int);
    }
    while i > 0
        invariant
            n == s@.len(),
            i <= n,
            u as int == weighted_sum(s@.skip(i as int), base as int) % word_modulus(),
            f as int == pow(base as int, (n - i) as nat) % word_modulus(),
        decreases i,
    {
        i = i - 1;
        let c = s.get_char(i);
        let d = (c as u32).wrapping_sub('0' as u32);
        let g = f.wrapping_mul(d);
        let ghost old_u = u;
        u = u.wrapping_add(g);
        let ghost old_f = f;
        f = f.wrapping_mul(base);
        proof {
            let m = word_modulus();
            let p = pow(base as int, (n - i - 1) as nat);
            let w = weighted_sum(s@.skip(i + 1), base as int);
            let t = s@.skip(i as int);
            assert(t[0] == c);
            assert(t.skip(1) =~= s@.skip(i + 1));
            assert(weighted_sum(t, base as int) == digit_value(c) * p + w);
            lemma_wrapping_sub_mod(c as u32, '0' as u32);
            assert(d as int == digit_value(c) % m);
            lemma_mul_mod_noop(p, digit_value(c), m);
            assert(g as int == (p * digit_value(c)) % m);
            lemma_wrapping_add_mod(old_u, g);
            lemma_add_mod_noop(w, p * digit_value(c), m);
            assert(u as int == (digit_value(c) * p + w) % m) by (nonlinear_arith)
                requires
                    u as int == (old_u as int + g as int) % m,
                    old_u as int == w % m,
                    g as int == (p * digit_value(c)) % m,
                    ((w % m) + ((p * digit_value(c)) % m)) % m == (w + p * digit_value(c)) % m,
            ;
            lemma_mul_mod_noop_left(p, base as int, m);
            assert(pow(base as int, (n - i) as nat) == base as int * p) by {
                vstd::arithmetic::power::lemma_pow_adds(base as int, (n - i - 1) as nat, 1);
                vstd::arithmetic::power::lemma_pow1(base as int);
            }
            assert(f as int == pow(base as int, (n - i) as nat) % m) by (nonlinear_arith)
                requires
                    f as int == (old_f as int * base as int) % m,
                    old_f as int == p % m,
                    (p % m) * (base as int) % m == (p * base as int) % m,
                    pow(base as int, (n - i) as nat) == base as int * p,
            ;
        }
    }
    proof {
        assert(s@.skip(0) =~= s@);
    }
    u
}

/// Decodes an octal numeral (base 8).
pub fn octal_to_u32(o: &str) -> (r: u32)
    ensures
        r as int == decoded(o@, 8),
        o@.len() == 0 ==> r == 0,
{
    str_to_u32(o, 8)
}

/// Decodes a decimal numeral (base 10).
pub fn decimal_to_u32(d: &str) -> (r: u32)
    ensures
        r as int == decoded(d@, 10),
        d@.len() == 0 ==> r == 0,
{
    str_to_u32(d, 10)
}

/// The usual value of a numeral in base `base`, read from left to right:
/// each step multiplies what was read so far by the base and adds the next
/// digit.
pub open spec fn numeral_value(s: Seq<char>, base: int) -> int
    decreases s.len(),
{
    if s.len() == 0 {
        0
    } else {
        numeral_value(s.drop_last(), base) * base + digit_value(s.last())
    }
}

/// Whether every character of `s` is a digit of base `base`.
pub open spec fn is_digit_string(s: Seq<char>, base: int) -> bool {
    forall|k: int| 0 <= k < s.len() ==> 0 <= #[trigger] digit_value(s[k]) < base
}

proof fn lemma_weighted_sum_push(s: Seq<char>, c: char, base: int)
    ensures
        weighted_sum(s.push(c), base) == weighted_sum(s, base) * base + digit_value(c),
    decreases s.len(),
{
    if s.len() > 0 {
        let t = s.push(c);
        assert(t.skip(1) =~= s.skip(1).push(c));
        lemma_weighted_sum_push(s.skip(1), c, base);
        let e = (s.len() - 1) as nat;
        let p = pow(base, e);
        assert(pow(base, s.len() as nat) == base * p) by {
            vstd::arithmetic::power::lemma_pow_adds(base, e, 1);
            vstd::arithmetic::power::lemma_pow1(base);
            assert(e + 1 == s.len());
            assert(pow(base, e) * pow(base, 1) == base * p) by (nonlinear_arith)
                requires
                    pow(base, 1) == base,
                    p == pow(base, e),
            ;
        }
        assert(t[0] == s[0]);
        assert(t.len() - 1 == s.len());
        assert(weighted_sum(t, base) == digit_value(s[0]) * pow(base, s.len() as nat)
            + weighted_sum(t.skip(1), base));
        assert(digit_value(s[0]) * (base * p) + (weighted_sum(s.skip(1), base) * base
            + digit_value(c)) == (digit_value(s[0]) * p + weighted_sum(s.skip(1), base)) * base
            + digit_value(c)) by (nonlinear_arith);
    } else {
        let t = s.push(c);
        assert(t.skip(1) =~= Seq::<char>::empty());
        vstd::arithmetic::power::lemma_pow0(base);
        assert(t[0] == c);
        assert(weighted_sum(t, base) == digit_value(c) * pow(base, 0) + weighted_sum(t.skip(1), base));
        assert(weighted_sum(t.skip(1), base) == 0);
    }
}

proof fn lemma_weighted_sum_is_numeral_value(s: Seq<char>, base: int)
    ensures
        weighted_sum(s, base) == numeral_value(s, base),
    decreases s.len(),
{
    if s.len() > 0 {
        lemma_weighted_sum_is_numeral_value(s.drop_last(), base);
        lemma_weighted_sum_push(s.drop_last(), s.last(), base);
        assert(s.drop_last().push(s.last()) =~= s);
    }
}

proof fn lemma_numeral_value_bounds(s: Seq<char>, base: int)
    requires
        base > 0,
        is_digit_string(s, base),
    ensures
        0 <= numeral_value(s, base) < pow(base, s.len()),
    decreases s.len(),
{
    if s.len() == 0 {
        vstd::arithmetic::power::lemma_pow0(base);
    } else {
        let t = s.drop_last();
        assert(is_digit_string(t, base)) by {
            assert forall|k: int| 0 <= k < t.len() implies 0 <= #[trigger] digit_value(t[k]) < base by {
                assert(t[k] == s[k]);
            }
        }
        lemma_numeral_value_bounds(t, base);
        assert(0 <= digit_value(s[s.len() - 1]) < base);
        let v = numeral_value(t, base);
        let d = digit_value(s.last());
        let p = pow(base, t.len());
        assert(pow(base, s.len()) == p * base) by {
            vstd::arithmetic::power::lemma_pow_adds(base, t.len(), 1);
            vstd::arithmetic::power::lemma_pow1(base);
        }
        assert(0 <= v * base + d < p * base) by (nonlinear_arith)
            requires
                0 <= v < p,
                0 <= d < base,
        ;
    }
}

/// A string of digits of base 8 or 10 decodes to its usual value, which lies
/// below the base raised to the number of digits, whenever that value fits
/// in a `u32`.
pub proof fn lemma_digit_string_decodes_to_value(s: Seq<char>, base: int)
    requires
        base == 8 || base == 10,
        is_digit_string(s, base),
        numeral_value(s, base) < word_modulus(),
    ensures
        decoded(s, base) == numeral_value(s, base),
        0 <= numeral_value(s, base) < pow(base, s.len()),
{
    lemma_weighted_sum_is_numeral_value(s, base);
    lemma_numeral_value_bounds(s, base);
    lemma_small_mod(numeral_value(s, base) as nat, word_modulus() as nat);
}

} // verus!
