//! Reading integers and lists out of text.

use vstd::prelude::*;

use crate::command::text::{is_space, Line};

verus! {

/// A decimal digit.
pub open spec fn digit(c: char) -> bool {
    '0' <= c <= '9'
}

/// All characters of a text are digits.
pub open spec fn all_digits(s: Seq<char>) -> bool {
    forall|i: int| 0 <= i < s.len() ==> digit(#[trigger] s[i])
}

/// The number that digits spell.
pub open spec fn spelled(s: Seq<char>) -> nat
    decreases s.len(),
{
    if s.len() == 0 {
        0
    } else {
        10 * spelled(s.drop_last()) + (s.last() as int - 48) as nat
    }
}

/// The number that a text of digits spells, if it is one.
pub open spec fn decimal(s: Seq<char>) -> Option<int> {
    if s.len() > 0 && all_digits(s) {
        Some(spelled(s) as int)
    } else {
        None
    }
}

/// A number within bounds.
pub open spec fn within(v: Option<int>, lo: int, hi: int) -> Option<int> {
    match v {
        Some(n) => if lo <= n <= hi {
            Some(n)
        } else {
            None
        },
        None => None,
    }
}

/// The integer that a text spells: digits with an optional sign.
pub open spec fn signed(s: Seq<char>) -> Option<int> {
    if s.len() > 0 && s[0] == '-' {
        match decimal(s.drop_first()) {
            Some(n) => Some(-n),
            None => None,
        }
    } else if s.len() > 0 && s[0] == '+' {
        decimal(s.drop_first())
    } else {
        decimal(s)
    }
}

/// The natural number that a text spells: digits with an optional plus sign.
pub open spec fn unsigned(s: Seq<char>) -> Option<int> {
    if s.len() > 0 && s[0] == '+' {
        decimal(s.drop_first())
    } else {
        decimal(s)
    }
}

/// The `i32` that a text spells.
pub open spec fn i32_of(s: Seq<char>) -> Option<int> {
    within(signed(s), i32::MIN as int, i32::MAX as int)
}

/// The `u32` that a text spells.
pub open spec fn u32_of(s: Seq<char>) -> Option<int> {
    within(unsigned(s), 0, u32::MAX as int)
}

/// The `u64` that a text spells.
pub open spec fn u64_of(s: Seq<char>) -> Option<int> {
    within(unsigned(s), 0, u64::MAX as int)
}

/// Digits only add to a number.
proof fn lemma_spelled_grows(s: Seq<char>, i: int)
    requires
        0 <= i <= s.len(),
    ensures
        spelled(s.take(i)) <= spelled(s),
    decreases s.len(),
{
    if i < s.len() {
        lemma_spelled_grows(s.drop_last(), i);
        assert(s.drop_last().take(i) =~= s.take(i));
    } else {
        assert(s.take(i) =~= s);
    }
}

/// The number that the digits from `from` to `to` spell, up to `limit`.
fn read_decimal(line: &Line, from: usize, to: usize, limit: u64) -> (r: Option<u64>)
    requires
        line.wf(),
        from <= to <= line@.len(),
    ensures
        match r {
            Some(n) => decimal(line@.subrange(from as int, to as int)) == Some(n as int) && n
                <= limit,
            None => match decimal(line@.subrange(from as int, to as int)) {
                Some(n) => n > limit,
                None => true,
            },
        },
{
    let ghost s = line@.subrange(from as int, to as int);
    if from == to {
        return None;
    }
    let mut n: u64 = 0;
    let mut i: usize = from;
    assert(s.take(0) =~= Seq::empty());
    while i < to
        invariant
            line.wf(),
            from <= i <= to <= line@.len(),
            from < to,
            s == line@.subrange(from as int, to as int),
            n == spelled(s.take(i - from)),
            n <= limit,
            forall|k: int| 0 <= k < i - from ==> digit(#[trigger] s[k]),
        decreases to - i,
    {
        let c: char = line.get(i);
        let ghost k = i - from;
        assert(c == s[k]);
        if !('0' <= c && c <= '9') {
            return None;
        }
        let d: u64 = c as u64 - 48;
        let next: u128 = n as u128 * 10 + d as u128;
        proof {
            assert(s.take(k + 1).drop_last() =~= s.take(k));
            assert(s.take(k + 1).last() == c);
            assert(next == spelled(s.take(k + 1)));
        }
        if next > limit as u128 {
            proof {
                lemma_spelled_grows(s, k + 1);
            }
            return None;
        }
        n = next as u64;
        i = i + 1;
    }
    assert(s.take(i - from) =~= s);
    Some(n)
}

/// The `i32` that the characters from `from` to `to` spell.
pub fn read_i32(line: &Line, from: usize, to: usize) -> (r: Option<i32>)
    requires
        line.wf(),
        from <= to <= line@.len(),
    ensures
        match r {
            Some(n) => i32_of(line@.subrange(from as int, to as int)) == Some(n as int),
            None => i32_of(line@.subrange(from as int, to as int)) is None,
        },
{
    let ghost s = line@.subrange(from as int, to as int);
    if from < to && line.get(from) == '-' {
        assert(s.drop_first() =~= line@.subrange(from + 1, to as int));
        match read_decimal(line, from + 1, to, 0x8000_0000) {
            Some(n) => Some((-(n as i64)) as i32),
            None => None,
        }
    } else if from < to && line.get(from) == '+' {
        assert(s.drop_first() =~= line@.subrange(from + 1, to as int));
        match read_decimal(line, from + 1, to, 0x7fff_ffff) {
            Some(n) => Some(n as i32),
            None => None,
        }
    } else {
        match read_decimal(line, from, to, 0x7fff_ffff) {
            Some(n) => Some(n as i32),
            None => None,
        }
    }
}

/// The natural number up to `limit` that the characters from `from` to `to`
/// spell.
fn read_unsigned(line: &Line, from: usize, to: usize, limit: u64) -> (r: Option<u64>)
    requires
        line.wf(),
        from <= to <= line@.len(),
    ensures
        match r {
            Some(n) => within(
                unsigned(line@.subrange(from as int, to as int)),
                0,
                limit as int,
            ) == Some(n as int),
            None => within(
                unsigned(line@.subrange(from as int, to as int)),
                0,
                limit as int,
            ) is None,
        },
{
    let ghost s = line@.subrange(from as int, to as int);
    if from < to && line.get(from) == '+' {
        assert(s.drop_first() =~= line@.subrange(from + 1, to as int));
        read_decimal(line, from + 1, to, limit)
    } else {
        read_decimal(line, from, to, limit)
    }
}

/// The `u32` that the characters from `from` to `to` spell.
pub fn read_u32(line: &Line, from: usize, to: usize) -> (r: Option<u32>)
    requires
        line.wf(),
        from <= to <= line@.len(),
    ensures
        match r {
            Some(n) => u32_of(line@.subrange(from as int, to as int)) == Some(n as int),
            None => u32_of(line@.subrange(from as int, to as int)) is None,
        },
{
    match read_unsigned(line, from, to, 0xffff_ffff) {
        Some(n) => Some(n as u32),
        None => None,
    }
}

/// The `u64` that the characters from `from` to `to` spell.
pub fn read_u64(line: &Line, from: usize, to: usize) -> (r: Option<u64>)
    requires
        line.wf(),
        from <= to <= line@.len(),
    ensures
        match r {
            Some(n) => u64_of(line@.subrange(from as int, to as int)) == Some(n as int),
            None => u64_of(line@.subrange(from as int, to as int)) is None,
        },
{
    read_unsigned(line, from, to, u64::MAX)
}

/// The end of the part that starts at `at`: the next separator, or the end.
pub open spec fn part_end(s: Seq<char>, sep: char, at: int) -> int
    decreases s.len() - at,
{
    if at < s.len() && s[at] != sep {
        part_end(s, sep, at + 1)
    } else {
        at
    }
}

/// Where the parts of a text lie from `at` on.
pub open spec fn part_ranges(s: Seq<char>, sep: char, at: int) -> Seq<(int, int)>
    decreases s.len() - at,
    when 0 <= at <= s.len()
{
    let end = part_end(s, sep, at);
    if at <= end < s.len() {
        seq![(at, end)] + part_ranges(s, sep, end + 1)
    } else {
        seq![(at, end)]
    }
}

/// The parts of a text between separators.
pub open spec fn parts(s: Seq<char>, sep: char) -> Seq<Seq<char>> {
    part_ranges(s, sep, 0).map_values(|r: (int, int)| s.subrange(r.0, r.1))
}

proof fn lemma_part_end(s: Seq<char>, sep: char, at: int)
    requires
        0 <= at <= s.len(),
    ensures
        at <= part_end(s, sep, at) <= s.len(),
    decreases s.len() - at,
{
    if at < s.len() {
        lemma_part_end(s, sep, at + 1);
    }
}

/// Ranges as integers.
pub open spec fn range_views(v: Seq<(usize, usize)>) -> Seq<(int, int)> {
    v.map_values(|r: (usize, usize)| (r.0 as int, r.1 as int))
}

/// Where the parts of a line between separators lie.
pub fn split(line: &Line, sep: char) -> (out: Vec<(usize, usize)>)
    requires
        line.wf(),
    ensures
        range_views(out@) == part_ranges(line@, sep, 0),
        out@.len() == parts(line@, sep).len(),
        forall|i: int|
            0 <= i < out@.len() ==> (#[trigger] out@[i]).0 <= out@[i].1 <= line@.len()
                && line@.subrange(out@[i].0 as int, out@[i].1 as int) == parts(line@, sep)[i],
{
    let ghost s = line@;
    let n: usize = line.len();
    let mut out: Vec<(usize, usize)> = Vec::new();
    let mut at: usize = 0;
    let mut i: usize = 0;
    assert(range_views(out@) + part_ranges(s, sep, 0) =~= part_ranges(s, sep, 0));
    while i < n
        invariant
            line.wf(),
            s == line@,
            n == s.len(),
            at <= i <= n,
            part_end(s, sep, i as int) == part_end(s, sep, at as int),
            range_views(out@) + part_ranges(s, sep, at as int) == part_ranges(s, sep, 0),
            forall|k: int|
                0 <= k < out@.len() ==> (#[trigger] out@[k]).0 <= out@[k].1 <= n,
        decreases n - i,
    {
        if line.get(i) == sep {
            let ghost before = out@;
            out.push((at, i));
            proof {
                let rest = part_ranges(s, sep, i + 1);
                assert(part_ranges(s, sep, at as int) =~= seq![(at as int, i as int)] + rest);
                assert(range_views(out@) =~= range_views(before).push((at as int, i as int)));
                assert(range_views(before) + (seq![(at as int, i as int)] + rest) =~= range_views(
                    out@,
                ) + rest);
            }
            at = i + 1;
        }
        i = i + 1;
    }
    let ghost before = out@;
    out.push((at, n));
    proof {
        assert(range_views(out@) =~= range_views(before).push((at as int, n as int)));
        assert(part_ranges(s, sep, at as int) =~= seq![(at as int, n as int)]);
        assert(range_views(before) + seq![(at as int, n as int)] =~= range_views(before).push(
            (at as int, n as int),
        ));
        assert forall|k: int| 0 <= k < out@.len() implies (#[trigger] out@[k]).0 <= out@[k].1 <= n
            && s.subrange(out@[k].0 as int, out@[k].1 as int) == parts(s, sep)[k] by {
            assert(range_views(out@)[k] == (out@[k].0 as int, out@[k].1 as int));
        }
    }
    out
}

/// First character from `at` on that is no space, before `to`.
pub open spec fn first_dark(s: Seq<char>, at: int) -> int
    decreases s.len() - at,
{
    if at < s.len() && is_space(s[at]) {
        first_dark(s, at + 1)
    } else {
        at
    }
}

/// The end of a text without the spaces before `end`.
pub open spec fn last_dark(s: Seq<char>, end: int, at: int) -> int
    decreases end - at,
{
    if end > at && is_space(s[end - 1]) {
        last_dark(s, end - 1, at)
    } else {
        end
    }
}

/// A text without the spaces around it.
pub open spec fn trimmed(s: Seq<char>) -> Seq<char> {
    let from = first_dark(s, 0);
    s.subrange(from, last_dark(s, s.len() as int, from))
}

/// Where the characters from `from` to `to` lie without the spaces around them.
pub fn trim(line: &Line, from: usize, to: usize) -> (r: (usize, usize))
    requires
        line.wf(),
        from <= to <= line@.len(),
    ensures
        from <= r.0 <= r.1 <= to,
        line@.subrange(r.0 as int, r.1 as int) == trimmed(
            line@.subrange(from as int, to as int),
        ),
{
    let ghost s = line@.subrange(from as int, to as int);
    let mut a: usize = from;
    while a < to && crate::command::text::is_whitespace(line.get(a))
        invariant
            line.wf(),
            from <= a <= to <= line@.len(),
            s == line@.subrange(from as int, to as int),
            first_dark(s, a - from) == first_dark(s, 0),
        decreases to - a,
    {
        a = a + 1;
    }
    let mut b: usize = to;
    while b > a && crate::command::text::is_whitespace(line.get(b - 1))
        invariant
            line.wf(),
            from <= a <= b <= to <= line@.len(),
            s == line@.subrange(from as int, to as int),
            last_dark(s, b - from, a - from) == last_dark(s, to - from, a - from),
        decreases b,
    {
        b = b - 1;
    }
    assert(line@.subrange(a as int, b as int) =~= s.subrange(a - from, b - from));
    (a, b)
}

/// `String::push`: the character is added at the end.
pub assume_specification[ std::string::String::push ](s: &mut std::string::String, c: char)
    ensures
        final(s)@ == old(s)@.push(c),
;

/// A path below a directory, with a slash between where there is none.
pub open spec fn path_below(dir: Seq<char>, rest: Seq<char>) -> Seq<char> {
    if dir.len() == 0 || dir.last() == '/' {
        dir + rest
    } else {
        dir.push('/') + rest
    }
}

/// A path below a directory.
pub fn join_path(dir: &str, rest: &str) -> (p: String)
    ensures
        p@ == path_below(dir@, rest@),
{
    let n: usize = dir.unicode_len();
    let mut p: String = dir.to_owned();
    if n > 0 && dir.get_char(n - 1) != '/' {
        p.push('/');
    }
    p.append(rest);
    p
}

/// The digits of a number.
pub open spec fn digits(n: nat) -> Seq<char>
    decreases n,
{
    if n < 10 {
        seq![(48 + n) as char]
    } else {
        digits(n / 10).push((48 + n % 10) as char)
    }
}

/// Write a number's digits behind a text.
pub fn push_digits(s: &mut String, n: u64)
    ensures
        final(s)@ == old(s)@ + digits(n as nat),
    decreases n,
{
    if n < 10 {
        s.push((48 + n as u8) as char);
        assert(s@ =~= old(s)@ + digits(n as nat));
    } else {
        push_digits(s, n / 10);
        s.push((48 + (n % 10) as u8) as char);
        assert(s@ =~= old(s)@ + digits(n as nat));
    }
}

/// A written number reads back as itself, also behind zeros.
pub proof fn law_digits_read_back(zeros: nat, n: nat)
    ensures
        decimal(Seq::new(zeros, |i: int| '0') + digits(n)) == Some(n as int),
        digits(n).len() > 0,
    decreases n,
{
    let z = Seq::new(zeros, |i: int| '0');
    let s = z + digits(n);
    if n < 10 {
        assert(s.drop_last() =~= z);
        lemma_zeros(zeros);
        assert(s.last() == (48 + n) as char);
        assert(digit(s.last()));
    } else {
        law_digits_read_back(zeros, n / 10);
        let t = z + digits(n / 10);
        assert(s =~= t.push((48 + n % 10) as char));
        assert(s.drop_last() =~= t);
        assert forall|i: int| 0 <= i < s.len() implies digit(#[trigger] s[i]) by {
            if i < t.len() {
                assert(digit(t[i]));
            }
        }
    }
    assert forall|i: int| 0 <= i < s.len() implies digit(#[trigger] s[i]) by {}
}

proof fn lemma_zeros(n: nat)
    ensures
        spelled(Seq::new(n, |i: int| '0')) == 0,
    decreases n,
{
    if n > 0 {
        lemma_zeros((n - 1) as nat);
        assert(Seq::new(n, |i: int| '0').drop_last() =~= Seq::new((n - 1) as nat, |i: int| '0'));
    }
}

} // verus!
