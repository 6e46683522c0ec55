//! Which tokens name a finite single-precision number.
//!
//! A number is an optional sign, digits with an optional decimal point, and an
//! optional exponent. It is finite when rounding it to single precision does
//! not overflow, that is when its magnitude is below 2^128 - 2^103. The words
//! `inf`, `infinity` and `nan`, in any case, are numbers but not finite.

use vstd::arithmetic::power::{
    lemma_pow_adds, lemma_pow_increases, lemma_pow_positive, lemma_pow0, pow,
};
use vstd::prelude::*;

use crate::command::text::Line;

verus! {

/// What a token says as a number.
#[derive(Clone, Copy, Debug, PartialEq, Eq, Structural)]
pub enum NumberScan {
    NotANumber,
    NotFinite,
    Finite,
}

pub open spec fn is_digit(c: char) -> bool {
    '0' <= c <= '9'
}

pub open spec fn digit_value(c: char) -> int {
    c as int - 48
}

/// The digits of a text as integers.
pub open spec fn digits_of(s: Seq<char>) -> Seq<int> {
    s.map_values(|c: char| digit_value(c))
}

/// The number that decimal digits spell.
pub open spec fn digits_value(d: Seq<int>) -> int
    decreases d.len(),
{
    if d.len() == 0 {
        0
    } else {
        10 * digits_value(d.drop_last()) + d.last()
    }
}

/// First position from `at` on that holds no digit.
pub open spec fn digits_stop(s: Seq<char>, at: int) -> int
    decreases s.len() - at,
{
    if at < s.len() && is_digit(s[at]) {
        digits_stop(s, at + 1)
    } else {
        at
    }
}

/// The digits of 2^128 - 2^103, the least magnitude that rounds to infinity.
#[verifier::opaque]
pub open spec fn limit_digits() -> Seq<int> {
    seq![
        3int, 4, 0, 2, 8, 2, 3, 5, 6, 7, 7, 9, 7, 3, 3, 6, 6, 1, 6, 3, 7, 5, 3, 9, 3, 9, 5, 4, 5, 8,
        1, 4, 2, 5, 6, 8, 4, 4, 8
    ]
}

/// Digits `d` scaled by `10^e` stay below the limit.
pub open spec fn below_limit(d: Seq<int>, e: int) -> bool {
    if e >= 0 {
        digits_value(d) * pow(10, e as nat) < digits_value(limit_digits())
    } else {
        digits_value(d) < digits_value(limit_digits()) * pow(10, (-e) as nat)
    }
}

/// A text without its leading sign.
pub open spec fn without_sign(s: Seq<char>) -> Seq<char> {
    if s.len() > 0 && (s[0] == '+' || s[0] == '-') {
        s.skip(1)
    } else {
        s
    }
}

/// The value of an exponent's text, sign and digits, if it is one.
pub open spec fn exponent_value(s: Seq<char>) -> Option<int> {
    let d = without_sign(s);
    if d.len() > 0 && digits_stop(d, 0) == d.len() {
        Some(
            if s[0] == '-' {
                -digits_value(digits_of(d))
            } else {
                digits_value(digits_of(d))
            },
        )
    } else {
        None
    }
}

/// Digits and power of ten that an unsigned text spells, if it is a number.
pub open spec fn decimal_parts(s: Seq<char>) -> Option<(Seq<int>, int)> {
    let a = digits_stop(s, 0);
    let dot = a < s.len() && s[a] == '.';
    let b = if dot {
        digits_stop(s, a + 1)
    } else {
        a
    };
    let frac = if dot {
        s.subrange(a + 1, b)
    } else {
        Seq::empty()
    };
    let digits = digits_of(s.take(a) + frac);
    if digits.len() == 0 {
        None
    } else if b == s.len() {
        Some((digits, -frac.len()))
    } else if s[b] == 'e' || s[b] == 'E' {
        match exponent_value(s.skip(b + 1)) {
            Some(e) => Some((digits, e - frac.len())),
            None => None,
        }
    } else {
        None
    }
}

/// An ASCII letter in lower case.
pub open spec fn lowered(c: char) -> char {
    if 'A' <= c <= 'Z' {
        (c as int + 32) as char
    } else {
        c
    }
}

/// `s` spells `word` in any case.
pub open spec fn spells_any_case(s: Seq<char>, word: Seq<char>) -> bool {
    s.map_values(|c: char| lowered(c)) == word
}

/// What a text says as a number.
pub open spec fn scan_spec(t: Seq<char>) -> NumberScan {
    let s = without_sign(t);
    if spells_any_case(s, seq!['i', 'n', 'f']) || spells_any_case(
        s,
        seq!['i', 'n', 'f', 'i', 'n', 'i', 't', 'y'],
    ) || spells_any_case(s, seq!['n', 'a', 'n']) {
        NumberScan::NotFinite
    } else {
        match decimal_parts(s) {
            Some((d, e)) => if below_limit(d, e) {
                NumberScan::Finite
            } else {
                NumberScan::NotFinite
            },
            None => NumberScan::NotANumber,
        }
    }
}

/// Digits are between 0 and 9.
spec fn proper(d: Seq<int>) -> bool {
    forall|i: int| 0 <= i < d.len() ==> 0 <= #[trigger] d[i] <= 9
}

proof fn lemma_value_bounds(d: Seq<int>)
    requires
        proper(d),
    ensures
        0 <= digits_value(d) < pow(10, d.len()),
        d.len() > 0 && d[0] > 0 ==> pow(10, (d.len() - 1) as nat) <= digits_value(d),
    decreases d.len(),
{
    lemma_pow0(10);
    if d.len() > 0 {
        lemma_value_bounds(d.drop_last());
        lemma_pow_step((d.len() - 1) as nat);
        if d.len() > 1 {
            assert(d.drop_last()[0] == d[0]);
            lemma_pow_step((d.len() - 2) as nat);
        }
    }
}

proof fn lemma_pow_step(n: nat)
    ensures
        pow(10, n + 1) == 10 * pow(10, n),
        pow(10, n) > 0,
{
    lemma_pow_positive(10, n);
    reveal(pow);
    assert(pow(10, n + 1) == 10 * pow(10, n));
}

/// Appending zeros scales the value.
proof fn lemma_padded(d: Seq<int>, zeros: nat)
    ensures
        digits_value(d + Seq::new(zeros, |i: int| 0int)) == digits_value(d) * pow(10, zeros),
    decreases zeros,
{
    let z = Seq::new(zeros, |i: int| 0int);
    lemma_pow0(10);
    if zeros == 0 {
        assert(d + z =~= d);
        assert(digits_value(d) * 1 == digits_value(d));
    } else {
        let shorter = Seq::new((zeros - 1) as nat, |i: int| 0int);
        assert((d + z).drop_last() =~= d + shorter);
        lemma_padded(d, (zeros - 1) as nat);
        lemma_pow_step((zeros - 1) as nat);
        let v = digits_value(d);
        let p = pow(10, (zeros - 1) as nat);
        assert(10 * (v * p) == v * (10 * p)) by (nonlinear_arith);
    }
}

/// Dropping a leading zero keeps the value.
proof fn lemma_strip_zero(d: Seq<int>)
    requires
        d.len() > 0,
        d[0] == 0,
    ensures
        digits_value(d.skip(1)) == digits_value(d),
    decreases d.len(),
{
    if d.len() == 1 {
        assert(d.skip(1) =~= Seq::empty());
        assert(d.drop_last() =~= Seq::empty());
    } else {
        assert(d.skip(1).drop_last() =~= d.drop_last().skip(1));
        lemma_strip_zero(d.drop_last());
    }
}

/// Of two equally long digit strings that agree before position `k`, the one
/// with the smaller digit there is smaller.
proof fn lemma_first_difference(a: Seq<int>, b: Seq<int>, k: int)
    requires
        proper(a),
        proper(b),
        a.len() == b.len(),
        0 <= k < a.len(),
        a.take(k) == b.take(k),
        a[k] < b[k],
    ensures
        digits_value(a) < digits_value(b),
    decreases a.len(),
{
    if k == a.len() - 1 {
        assert(a.drop_last() =~= a.take(k));
        assert(b.drop_last() =~= b.take(k));
    } else {
        assert(a.drop_last().take(k) =~= a.take(k));
        assert(b.drop_last().take(k) =~= b.take(k));
        lemma_first_difference(a.drop_last(), b.drop_last(), k);
    }
}

/// The limit's digits.
fn limit_digit(i: usize) -> (d: u8)
    requires
        i < 39,
    ensures
        d == limit_digits()[i as int],
        d <= 9,
{
    proof {
        reveal(limit_digits);
    }
    let digits: [u8; 39] = [
        3, 4, 0, 2, 8, 2, 3, 5, 6, 7, 7, 9, 7, 3, 3, 6, 6, 1, 6, 3, 7, 5, 3, 9, 3, 9, 5, 4, 5, 8, 1,
        4, 2, 5, 6, 8, 4, 4, 8,
    ];
    digits[i]
}

/// The limit has thirty-nine digits.
proof fn lemma_limit_size()
    ensures
        limit_digits().len() == 39,
        proper(limit_digits()),
        pow(10, 38) <= digits_value(limit_digits()) < pow(10, 39),
{
    reveal(limit_digits);
    lemma_value_bounds(limit_digits());
}

proof fn lemma_mul_le(a: int, b: int, c: int)
    requires
        a <= b,
        c > 0,
    ensures
        a * c <= b * c,
        a < b ==> a * c < b * c,
{
    assert(a * c <= b * c) by (nonlinear_arith)
        requires
            a <= b,
            c > 0,
    ;
    if a < b {
        assert(a * c < b * c) by (nonlinear_arith)
            requires
                a < b,
                c > 0,
        ;
    }
}

/// A number with fewer integer digits than the limit is below it, one with more
/// is not.
proof fn lemma_limit_by_size(d: Seq<int>, e: int)
    requires
        proper(d),
        d.len() > 0,
        d[0] > 0,
    ensures
        d.len() + e < 39 ==> below_limit(d, e),
        d.len() + e > 39 ==> !below_limit(d, e),
{
    lemma_limit_size();
    lemma_value_bounds(d);
    let m = d.len();
    let v = digits_value(d);
    let limit = digits_value(limit_digits());
    if e >= 0 {
        let p = pow(10, e as nat);
        lemma_pow_positive(10, e as nat);
        lemma_pow_adds(10, m, e as nat);
        lemma_pow_adds(10, (m - 1) as nat, e as nat);
        lemma_mul_le(v, pow(10, m), p);
        lemma_mul_le(pow(10, (m - 1) as nat), v, p);
        if m + e < 39 {
            lemma_pow_increases(10, (m + e) as nat, 38);
        }
        if m + e > 39 {
            lemma_pow_increases(10, 39, (m - 1 + e) as nat);
        }
    } else {
        let q = (-e) as nat;
        let p = pow(10, q);
        lemma_pow_positive(10, q);
        lemma_pow_adds(10, 38, q);
        lemma_pow_adds(10, 39, q);
        lemma_mul_le(pow(10, 38), limit, p);
        lemma_mul_le(limit, pow(10, 39), p);
        if m + e < 39 {
            lemma_pow_increases(10, m, (38 + q) as nat);
        }
        if m + e > 39 {
            lemma_pow_increases(10, (39 + q) as nat, (m - 1) as nat);
        }
    }
}

/// Zero is below the limit whatever its scale.
proof fn lemma_zero_below(d: Seq<int>, e: int)
    requires
        digits_value(d) == 0,
    ensures
        below_limit(d, e),
{
    lemma_limit_size();
    lemma_pow_positive(10, 38);
    if e < 0 {
        let p = pow(10, (-e) as nat);
        lemma_pow_positive(10, (-e) as nat);
        let limit = digits_value(limit_digits());
        assert(0 < limit * p) by (nonlinear_arith)
            requires
                limit > 0,
                p > 0,
        ;
    } else {
        let p = pow(10, e as nat);
        assert(0 * p == 0) by (nonlinear_arith);
    }
}

/// Digits as integers.
spec fn as_ints(v: Seq<u8>) -> Seq<int> {
    v.map_values(|d: u8| d as int)
}

/// The first digit that is not zero, or the end.
fn leading_zeros(digits: &Vec<u8>) -> (k: usize)
    requires
        forall|i: int| 0 <= i < digits@.len() ==> #[trigger] digits@[i] <= 9,
    ensures
        k <= digits@.len(),
        k < digits@.len() ==> digits@[k as int] > 0,
        digits_value(as_ints(digits@).skip(k as int)) == digits_value(as_ints(digits@)),
{
    let ghost d = as_ints(digits@);
    let mut k: usize = 0;
    assert(d.skip(0) =~= d);
    while k < digits.len() && digits[k] == 0
        invariant
            k <= digits@.len(),
            d == as_ints(digits@),
            digits_value(d.skip(k as int)) == digits_value(d),
        decreases digits@.len() - k,
    {
        proof {
            lemma_strip_zero(d.skip(k as int));
            assert(d.skip(k as int).skip(1) =~= d.skip(k as int + 1));
        }
        k = k + 1;
    }
    k
}

/// Whether digits scaled by `10^e` stay below the limit.
fn is_below_limit(digits: &Vec<u8>, e: i128) -> (b: bool)
    requires
        forall|i: int| 0 <= i < digits@.len() ==> #[trigger] digits@[i] <= 9,
        -0x1_0000_0000_0000_0000_0000_0000_0000 < e < 0x1_0000_0000_0000_0000_0000_0000_0000,
    ensures
        b == below_limit(as_ints(digits@), e as int),
{
    let ghost all = as_ints(digits@);
    let k: usize = leading_zeros(digits);
    let total: usize = digits.len();
    let m: usize = total - k;
    let ghost d = all.skip(k as int);
    proof {
        assert(below_limit(d, e as int) == below_limit(all, e as int));
        assert(proper(d));
    }
    if m == 0 {
        proof {
            assert(d =~= Seq::empty());
            lemma_zero_below(all, e as int);
        }
        return true;
    }
    proof {
        assert(d[0] == digits@[k as int]);
        lemma_limit_by_size(d, e as int);
    }
    let size: i128 = m as i128 + e;
    if size < 39 {
        return true;
    }
    if size > 39 {
        return false;
    }
    let n: usize = if m < 39 {
        39
    } else {
        m
    };
    let ghost a = d + Seq::new((n - m) as nat, |i: int| 0int);
    let ghost b = limit_digits() + Seq::new((n - 39) as nat, |i: int| 0int);
    proof {
        lemma_limit_size();
        lemma_padded(d, (n - m) as nat);
        lemma_padded(limit_digits(), (n - 39) as nat);
        lemma_pow0(10);
        assert(digits_value(limit_digits()) * 1 == digits_value(limit_digits()));
        assert(digits_value(d) * 1 == digits_value(d));
        assert(e == 39 - m);
        assert(below_limit(d, e as int) == (digits_value(a) < digits_value(b)));
        assert(a.take(0) =~= b.take(0));
        assert(proper(a));
        assert(proper(b));
    }
    let mut j: usize = 0;
    while j < n
        invariant
            j <= n,
            total == digits@.len(),
            m == total - k,
            k <= total,
            n == (if m < 39 {
                39
            } else {
                m as int
            }),
            d == as_ints(digits@).skip(k as int),
            limit_digits().len() == 39,
            a == d + Seq::new((n - m) as nat, |i: int| 0int),
            b == limit_digits() + Seq::new((n - 39) as nat, |i: int| 0int),
            proper(a),
            proper(b),
            a.take(j as int) == b.take(j as int),
            all == as_ints(digits@),
            below_limit(all, e as int) == (digits_value(a) < digits_value(b)),
        decreases n - j,
    {
        let x: u8 = if j < m {
            digits[k + j]
        } else {
            0
        };
        let y: u8 = if j < 39 {
            limit_digit(j)
        } else {
            0
        };
        assert(x == a[j as int]);
        assert(y == b[j as int]);
        if x < y {
            proof {
                lemma_first_difference(a, b, j as int);
            }
            return true;
        }
        if x > y {
            proof {
                lemma_first_difference(b, a, j as int);
            }
            return false;
        }
        proof {
            assert(a.take(j as int + 1) =~= a.take(j as int).push(a[j as int]));
            assert(b.take(j as int + 1) =~= b.take(j as int).push(b[j as int]));
        }
        j = j + 1;
    }
    proof {
        assert(a.take(n as int) =~= a);
        assert(b.take(n as int) =~= b);
    }
    false
}

/// First position from `at` on, before `to`, that holds no digit.
fn digits_end(line: &Line, from: usize, at: usize, to: usize) -> (r: usize)
    requires
        line.wf(),
        from <= at <= to <= line@.len(),
    ensures
        at <= r <= to,
        r - from == digits_stop(line@.subrange(from as int, to as int), at - from),
        forall|i: int| at <= i < r ==> is_digit(#[trigger] line@[i]),
{
    let ghost s = line@.subrange(from as int, to as int);
    let mut i: usize = at;
    while i < to && '0' <= line.get(i) && line.get(i) <= '9'
        invariant
            from <= at <= i <= to <= line@.len(),
            s == line@.subrange(from as int, to as int),
            digits_stop(s, i - from) == digits_stop(s, at - from),
            forall|j: int| at <= j < i ==> is_digit(#[trigger] line@[j]),
        decreases to - i,
    {
        i = i + 1;
    }
    i
}

/// Append the digits from `from` to `to` to a list.
fn push_digits(line: &Line, from: usize, to: usize, out: &mut Vec<u8>)
    requires
        line.wf(),
        from <= to <= line@.len(),
        forall|i: int| from <= i < to ==> is_digit(#[trigger] line@[i]),
        forall|i: int| 0 <= i < old(out)@.len() ==> #[trigger] old(out)@[i] <= 9,
    ensures
        as_ints(final(out)@) == as_ints(old(out)@) + digits_of(
            line@.subrange(from as int, to as int),
        ),
        forall|i: int| 0 <= i < final(out)@.len() ==> #[trigger] final(out)@[i] <= 9,
{
    let ghost start = as_ints(out@);
    let mut i: usize = from;
    assert(as_ints(out@) =~= start + digits_of(line@.subrange(from as int, from as int)));
    while i < to
        invariant
            from <= i <= to <= line@.len(),
            forall|j: int| from <= j < to ==> is_digit(#[trigger] line@[j]),
            forall|j: int| 0 <= j < out@.len() ==> #[trigger] out@[j] <= 9,
            as_ints(out@) == start + digits_of(line@.subrange(from as int, i as int)),
        decreases to - i,
    {
        let c: char = line.get(i);
        assert(is_digit(line@[i as int]));
        let d: u8 = (c as u32 - 48) as u8;
        let ghost before = as_ints(out@);
        out.push(d);
        proof {
            assert(as_ints(out@) =~= before.push(d as int));
            assert(line@.subrange(from as int, i as int + 1) =~= line@.subrange(
                from as int,
                i as int,
            ).push(line@[i as int]));
            assert(digits_of(line@.subrange(from as int, i as int + 1)) =~= digits_of(
                line@.subrange(from as int, i as int),
            ).push(d as int));
            assert(as_ints(out@) =~= start + digits_of(
                line@.subrange(from as int, i as int + 1),
            ));
        }
        i = i + 1;
    }
}

/// Exponents beyond this are treated alike.
pub open spec fn exponent_cap() -> int {
    1_000_000_000_000_000_000_000_000_000_000
}

/// The value of the digits from `from` to `to`, cut off at the cap.
fn capped_value(line: &Line, from: usize, to: usize) -> (v: i128)
    requires
        line.wf(),
        from <= to <= line@.len(),
        forall|i: int| from <= i < to ==> is_digit(#[trigger] line@[i]),
    ensures
        0 <= v <= 10 * exponent_cap() + 9,
        ({
            let full = digits_value(digits_of(line@.subrange(from as int, to as int)));
            v == full || (v >= exponent_cap() && full >= exponent_cap())
        }),
{
    let ghost s = line@.subrange(from as int, to as int);
    let mut v: i128 = 0;
    let mut i: usize = from;
    assert(digits_of(s.take(0)) =~= Seq::empty());
    while i < to
        invariant
            from <= i <= to <= line@.len(),
            s == line@.subrange(from as int, to as int),
            forall|j: int| from <= j < to ==> is_digit(#[trigger] line@[j]),
            0 <= v <= 10 * exponent_cap() + 9,
            v == digits_value(digits_of(s.take(i - from))) || (v >= exponent_cap()
                && digits_value(digits_of(s.take(i - from))) >= exponent_cap()),
        decreases to - i,
    {
        let c: char = line.get(i);
        proof {
            assert(is_digit(line@[i as int]));
            let k = i - from;
            assert(digits_of(s.take(k + 1)).drop_last() =~= digits_of(s.take(k)));
            assert(digits_of(s.take(k + 1)).last() == digit_value(c));
        }
        if v < 1_000_000_000_000_000_000_000_000_000_000 {
            v = v * 10 + (c as u32 - 48) as i128;
        }
        i = i + 1;
    }
    assert(s.take(to - from) =~= s);
    v
}

/// Exponents on either side of the cap decide alike.
proof fn lemma_capped_exponent(d: Seq<int>, full: int, cut: int)
    requires
        proper(d),
        d.len() <= 0x2_0000_0000_0000_0000,
        full == cut || (full >= exponent_cap() - 0x2_0000_0000_0000_0000 && cut >= exponent_cap()
            - 0x2_0000_0000_0000_0000) || (full <= -exponent_cap() && cut <= -exponent_cap()),
    ensures
        below_limit(d, full) == below_limit(d, cut),
    decreases d.len(),
{
    if d.len() == 0 {
        lemma_zero_below(d, full);
        lemma_zero_below(d, cut);
    } else if d[0] == 0 {
        lemma_strip_zero(d);
        lemma_capped_exponent(d.skip(1), full, cut);
    } else {
        lemma_limit_by_size(d, full);
        lemma_limit_by_size(d, cut);
    }
}

/// Whether the characters from `from` to `to` spell `word`, an ASCII word in
/// lower case, in any case.
fn spells_word(line: &Line, from: usize, to: usize, word: &str) -> (b: bool)
    requires
        line.wf(),
        from <= to <= line@.len(),
    ensures
        b == spells_any_case(line@.subrange(from as int, to as int), word@),
{
    let ghost s = line@.subrange(from as int, to as int);
    let ghost low = s.map_values(|c: char| lowered(c));
    if word.unicode_len() != to - from {
        return false;
    }
    let mut i: usize = 0;
    while i < to - from
        invariant
            from <= to <= line@.len(),
            i <= to - from,
            word@.len() == to - from,
            s == line@.subrange(from as int, to as int),
            low == s.map_values(|c: char| lowered(c)),
            forall|k: int| 0 <= k < i ==> #[trigger] low[k] == word@[k],
        decreases to - from - i,
    {
        let c: char = line.get(from + i);
        let l: char = lower(c);
        assert(low[i as int] == l);
        if l != word.get_char(i) {
            return false;
        }
        i = i + 1;
    }
    assert(low =~= word@);
    true
}

fn lower(c: char) -> (l: char)
    ensures
        l == lowered(c),
{
    if 'A' <= c && c <= 'Z' {
        let u: u8 = c as u32 as u8;
        (u + 32) as char
    } else {
        c
    }
}

/// The exponent that the characters from `from` to `to` spell, cut off at the
/// cap.
fn scan_exponent(line: &Line, from: usize, to: usize) -> (r: Option<i128>)
    requires
        line.wf(),
        from <= to <= line@.len(),
    ensures
        match (r, exponent_value(line@.subrange(from as int, to as int))) {
            (Some(v), Some(full)) => {
                &&& -10 * exponent_cap() - 9 <= v <= 10 * exponent_cap() + 9
                &&& v == full || (v >= exponent_cap() && full >= exponent_cap()) || (v
                    <= -exponent_cap() && full <= -exponent_cap())
            },
            (None, None) => true,
            _ => false,
        },
{
    let ghost s = line@.subrange(from as int, to as int);
    if from == to {
        return None;
    }
    let first: char = line.get(from);
    let signed = first == '+' || first == '-';
    let start: usize = if signed {
        from + 1
    } else {
        from
    };
    proof {
        assert(s[0] == first);
        assert(without_sign(s) =~= line@.subrange(start as int, to as int));
    }
    let end: usize = digits_end(line, start, start, to);
    if start == to || end != to {
        return None;
    }
    let v: i128 = capped_value(line, start, to);
    if first == '-' {
        Some(-v)
    } else {
        Some(v)
    }
}

/// The decimal that the characters from `from` to `to` spell without a sign,
/// classified against the limit; `None` if they spell none.
fn scan_decimal(line: &Line, from: usize, to: usize) -> (r: Option<bool>)
    requires
        line.wf(),
        from <= to <= line@.len(),
    ensures
        match (r, decimal_parts(line@.subrange(from as int, to as int))) {
            (Some(below), Some((d, e))) => below == below_limit(d, e),
            (None, None) => true,
            _ => false,
        },
{
    let ghost s = line@.subrange(from as int, to as int);
    let a: usize = digits_end(line, from, from, to);
    let mut digits: Vec<u8> = Vec::new();
    push_digits(line, from, a, &mut digits);
    let dot = a < to && line.get(a) == '.';
    let b: usize = if dot {
        digits_end(line, from, a + 1, to)
    } else {
        a
    };
    let frac: usize = if dot {
        push_digits(line, a + 1, b, &mut digits);
        b - a - 1
    } else {
        0
    };
    let ghost d = as_ints(digits@);
    proof {
        let x = a - from;
        let y = b - from;
        assert(s.take(x) =~= line@.subrange(from as int, a as int));
        if dot {
            assert(s.subrange(x + 1, y) =~= line@.subrange(a as int + 1, b as int));
        }
        let f = if dot {
            s.subrange(x + 1, y)
        } else {
            Seq::empty()
        };
        assert(d =~= digits_of(s.take(x) + f));
        line.lemma_fits();
        if a < to {
            assert(s[x] == line@[a as int]);
        }
    }
    if digits.len() == 0 {
        return None;
    }
    let exp: i128 = if b == to {
        0
    } else {
        let e: char = line.get(b);
        assert(s[b - from] == e);
        if e != 'e' && e != 'E' {
            return None;
        }
        proof {
            assert(s.skip(b - from + 1) =~= line@.subrange(b as int + 1, to as int));
        }
        match scan_exponent(line, b + 1, to) {
            Some(v) => v,
            None => {
                return None;
            },
        }
    };
    let scale: i128 = exp - frac as i128;
    proof {
        let full = if b == to {
            0
        } else {
            exponent_value(s.skip(b - from + 1))->0
        };
        assert(decimal_parts(s) == Some((d, full - frac)));
        lemma_capped_exponent(d, full - frac, scale as int);
    }
    Some(is_below_limit(&digits, scale))
}

/// What the characters from `from` to `to` say as a number.
pub fn scan_number(line: &Line, from: usize, to: usize) -> (r: NumberScan)
    requires
        line.wf(),
        from <= to <= line@.len(),
    ensures
        r == scan_spec(line@.subrange(from as int, to as int)),
{
    let ghost t = line@.subrange(from as int, to as int);
    let signed = from < to && (line.get(from) == '+' || line.get(from) == '-');
    let start: usize = if signed {
        from + 1
    } else {
        from
    };
    proof {
        if from < to {
            assert(t[0] == line@[from as int]);
        }
        assert(without_sign(t) =~= line@.subrange(start as int, to as int));
        reveal_strlit("inf");
        reveal_strlit("infinity");
        reveal_strlit("nan");
        assert("inf"@ =~= seq!['i', 'n', 'f']);
        assert("infinity"@ =~= seq!['i', 'n', 'f', 'i', 'n', 'i', 't', 'y']);
        assert("nan"@ =~= seq!['n', 'a', 'n']);
    }
    if spells_word(line, start, to, "inf") || spells_word(line, start, to, "infinity")
        || spells_word(line, start, to, "nan") {
        return NumberScan::NotFinite;
    }
    match scan_decimal(line, start, to) {
        Some(below) => if below {
            NumberScan::Finite
        } else {
            NumberScan::NotFinite
        },
        None => NumberScan::NotANumber,
    }
}

} // verus!
