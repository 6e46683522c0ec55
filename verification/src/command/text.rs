//! A command line as characters with their byte positions.

use vstd::prelude::*;
use vstd::utf8::{char_is_scalar, encode_scalar, encode_utf8};

verus! {

/// Characters that separate tokens: those with Unicode's white-space property.
pub open spec fn is_space(c: char) -> bool {
    let u = c as u32;
    ||| 0x09 <= u <= 0x0d
    ||| u == 0x20
    ||| u == 0x85
    ||| u == 0xa0
    ||| u == 0x1680
    ||| 0x2000 <= u <= 0x200a
    ||| u == 0x2028
    ||| u == 0x2029
    ||| u == 0x202f
    ||| u == 0x205f
    ||| u == 0x3000
}

/// Whether `c` separates tokens.
pub fn is_whitespace(c: char) -> (b: bool)
    ensures
        b == is_space(c),
{
    let u: u32 = c as u32;
    (0x09 <= u && u <= 0x0d) || u == 0x20 || u == 0x85 || u == 0xa0 || u == 0x1680 || (0x2000 <= u
        && u <= 0x200a) || u == 0x2028 || u == 0x2029 || u == 0x202f || u == 0x205f || u == 0x3000
}

/// Bytes that UTF-8 spends on a character.
pub open spec fn char_width(c: char) -> int {
    let u = c as u32;
    if u < 0x80 {
        1
    } else if u < 0x800 {
        2
    } else if u < 0x1_0000 {
        3
    } else {
        4
    }
}

fn width_of(c: char) -> (w: usize)
    ensures
        w == char_width(c),
{
    let u: u32 = c as u32;
    if u < 0x80 {
        1
    } else if u < 0x800 {
        2
    } else if u < 0x1_0000 {
        3
    } else {
        4
    }
}

/// Byte position of character `i`.
pub open spec fn byte_at(s: Seq<char>, i: int) -> int
    decreases i,
{
    if i <= 0 {
        0
    } else {
        byte_at(s, i - 1) + char_width(s[i - 1])
    }
}

/// First character from `at` on that is no space.
pub open spec fn after_spaces(s: Seq<char>, at: int) -> int
    decreases s.len() - at,
{
    if at < s.len() && is_space(s[at]) {
        after_spaces(s, at + 1)
    } else {
        at
    }
}

/// First space from `at` on, or the end.
pub open spec fn token_stop(s: Seq<char>, at: int) -> int
    decreases s.len() - at,
{
    if at < s.len() && !is_space(s[at]) {
        token_stop(s, at + 1)
    } else {
        at
    }
}

/// Where the token that ends at `at` begins.
pub open spec fn token_begin(s: Seq<char>, at: int) -> int
    decreases at,
{
    if at > 0 && !is_space(s[at - 1]) {
        token_begin(s, at - 1)
    } else {
        at
    }
}

/// The token that starts at `at`.
pub open spec fn token_at(s: Seq<char>, at: int) -> Seq<char> {
    s.subrange(at, token_stop(s, at))
}

pub proof fn lemma_token_bounds(s: Seq<char>, at: int)
    requires
        0 <= at <= s.len(),
    ensures
        at <= after_spaces(s, at) <= s.len(),
        at <= token_stop(s, at) <= s.len(),
        at < s.len() && !is_space(s[at]) ==> at < token_stop(s, at),
        after_spaces(s, at) < s.len() ==> !is_space(s[after_spaces(s, at)]),
    decreases s.len() - at,
{
    if at < s.len() {
        lemma_token_bounds(s, at + 1);
    }
}

pub proof fn lemma_begin_bounds(s: Seq<char>, at: int)
    requires
        0 <= at <= s.len(),
    ensures
        0 <= token_begin(s, at) <= at,
    decreases at,
{
    if at > 0 {
        lemma_begin_bounds(s, at - 1);
    }
}

/// Byte positions grow with character positions.
pub proof fn lemma_byte_at_grows(s: Seq<char>, i: int, j: int)
    requires
        0 <= i <= j <= s.len(),
    ensures
        0 <= byte_at(s, i) <= byte_at(s, j),
        i < j ==> byte_at(s, i) < byte_at(s, j),
        j - i <= byte_at(s, j) - byte_at(s, i) <= 4 * (j - i),
    decreases j,
{
    if i < j {
        lemma_byte_at_grows(s, i, j - 1);
    } else if i > 0 {
        lemma_byte_at_grows(s, i - 1, i - 1);
    }
}

/// The byte positions of a text fit in memory addresses.
pub open spec fn fits_memory(s: Seq<char>) -> bool {
    byte_at(s, s.len() as int) <= usize::MAX
}

/// Positions in a text without its first character.
proof fn lemma_byte_at_rest(s: Seq<char>, i: int)
    requires
        s.len() > 0,
        0 <= i < s.len(),
    ensures
        byte_at(s, i + 1) == char_width(s[0]) + byte_at(s.drop_first(), i),
    decreases i,
{
    if i > 0 {
        lemma_byte_at_rest(s, i - 1);
        assert(s.drop_first()[i - 1] == s[i]);
    } else {
        assert(byte_at(s, 0) == 0);
    }
}

/// The UTF-8 encoding has as many bytes as the characters' widths add up to.
proof fn lemma_encoded_len(s: Seq<char>)
    ensures
        encode_utf8(s).len() == byte_at(s, s.len() as int),
    decreases s.len(),
{
    if s.len() > 0 {
        lemma_encoded_len(s.drop_first());
        lemma_byte_at_rest(s, s.len() - 1);
        char_is_scalar(s[0]);
        assert(encode_scalar(s[0] as u32).len() == char_width(s[0]));
    }
}

/// A line of text, split into characters.
pub struct Line {
    source: String,
    chars: Vec<char>,
    /// Byte position of each character, and of the end.
    bytes: Vec<usize>,
}

impl View for Line {
    type V = Seq<char>;

    closed spec fn view(&self) -> Seq<char> {
        self.chars@
    }
}

impl Line {
    pub closed spec fn wf(&self) -> bool {
        &&& self.source@ == self.chars@
        &&& self.bytes@.len() == self.chars@.len() + 1
        &&& forall|i: int|
            0 <= i <= self.chars@.len() ==> #[trigger] self.bytes@[i] == byte_at(self.chars@, i)
        &&& fits_memory(self.chars@)
    }

    /// Split a string into characters.
    pub fn new(text: &str) -> (line: Line)
        ensures
            line.wf(),
            line@ == text@,
            fits_memory(text@),
    {
        let size: usize = text.as_bytes().len();
        proof {
            lemma_encoded_len(text@);
        }
        let mut chars: Vec<char> = Vec::with_capacity(size);
        let mut bytes: Vec<usize> = Vec::new();
        bytes.push(0);
        let mut total: usize = 0;
        for c in it: text.chars()
            invariant
                it.seq() == text@,
                fits_memory(text@),
                chars@ == text@.take(it.index()),
                bytes@.len() == it.index() + 1,
                total == byte_at(text@, it.index()),
                forall|i: int|
                    0 <= i <= it.index() ==> #[trigger] bytes@[i] == byte_at(text@, i),
        {
            proof {
                lemma_byte_at_grows(text@, it.index() + 1, text@.len() as int);
            }
            total = total + width_of(c);
            chars.push(c);
            bytes.push(total);
        }
        proof {
            assert(text@.take(text@.len() as int) =~= text@);
            lemma_byte_at_grows(text@, 0, text@.len() as int);
        }
        Line { source: text.to_owned(), chars, bytes }
    }

    /// A line's byte positions are in range.
    pub proof fn lemma_fits(&self)
        requires
            self.wf(),
        ensures
            fits_memory(self@),
            self@.len() <= usize::MAX,
    {
        lemma_byte_at_grows(self.chars@, 0, self.chars@.len() as int);
    }

    /// The character at position `i`.
    pub fn get(&self, i: usize) -> (c: char)
        requires
            i < self@.len(),
        ensures
            c == self@[i as int],
    {
        self.chars[i]
    }

    /// Byte position of character `i`, or of the end.
    pub fn byte(&self, i: usize) -> (b: usize)
        requires
            self.wf(),
            i <= self@.len(),
        ensures
            b == byte_at(self@, i as int),
    {
        self.bytes[i]
    }

    /// Skip spaces from `at` on.
    pub fn skip_ws(&self, at: usize) -> (r: usize)
        requires
            self.wf(),
            at <= self@.len(),
        ensures
            r == after_spaces(self@, at as int),
            at <= r <= self@.len(),
            r < self@.len() ==> !is_space(self@[r as int]),
    {
        let mut i: usize = at;
        while i < self.chars.len() && is_whitespace(self.chars[i])
            invariant
                at <= i <= self@.len(),
                after_spaces(self@, i as int) == after_spaces(self@, at as int),
            decreases self@.len() - i,
        {
            i = i + 1;
        }
        i
    }

    /// The end of the token that starts at `at`.
    pub fn token_end(&self, at: usize) -> (r: usize)
        requires
            self.wf(),
            at <= self@.len(),
        ensures
            r == token_stop(self@, at as int),
            at <= r <= self@.len(),
            at < self@.len() && !is_space(self@[at as int]) ==> at < r,
    {
        let mut i: usize = at;
        while i < self.chars.len() && !is_whitespace(self.chars[i])
            invariant
                at <= i <= self@.len(),
                token_stop(self@, i as int) == token_stop(self@, at as int),
            decreases self@.len() - i,
        {
            i = i + 1;
        }
        proof {
            lemma_token_bounds(self@, at as int);
        }
        i
    }

    /// The start of the token that ends at `at`.
    pub fn token_start_before(&self, at: usize) -> (r: usize)
        requires
            self.wf(),
            at <= self@.len(),
        ensures
            r == token_begin(self@, at as int),
            r <= at,
    {
        let mut i: usize = at;
        while i > 0 && !is_whitespace(self.chars[i - 1])
            invariant
                i <= at <= self@.len(),
                token_begin(self@, i as int) == token_begin(self@, at as int),
            decreases i,
        {
            i = i - 1;
        }
        i
    }

    /// Whether the text before `at` ends with a space.
    pub fn ends_with_ws(&self, at: usize) -> (b: bool)
        requires
            self.wf(),
            at <= self@.len(),
        ensures
            b == (at > 0 && is_space(self@[at - 1])),
    {
        at > 0 && is_whitespace(self.chars[at - 1])
    }

    /// Whether the characters from `from` to `to` spell `word`.
    pub fn spells(&self, from: usize, to: usize, word: &str) -> (b: bool)
        requires
            self.wf(),
            from <= to <= self@.len(),
        ensures
            b == (self@.subrange(from as int, to as int) == word@),
    {
        proof {
            let sub = self@.subrange(from as int, to as int);
            if sub.len() == word@.len() {
                assert(word@.subrange(0, sub.len() as int) =~= word@);
            }
        }
        self.starts_within(from, to, word) && word.unicode_len() == to - from
    }

    /// Whether `word` begins with the characters from `from` to `to`.
    pub fn starts_within(&self, from: usize, to: usize, word: &str) -> (b: bool)
        requires
            self.wf(),
            from <= to <= self@.len(),
        ensures
            b == self@.subrange(from as int, to as int).is_prefix_of(word@),
    {
        let want: usize = to - from;
        if word.unicode_len() < want {
            return false;
        }
        let mut i: usize = 0;
        while i < want
            invariant
                i <= want,
                want == to - from,
                from <= to <= self@.len(),
                want <= word@.len(),
                forall|k: int| 0 <= k < i ==> self@[from + k] == #[trigger] word@[k],
            decreases want - i,
        {
            if self.chars[from + i] != word.get_char(i) {
                proof {
                    let sub = self@.subrange(from as int, to as int);
                    assert(sub[i as int] != word@[i as int]);
                    assert(!(sub =~= word@.subrange(0, sub.len() as int))) by {
                        if sub =~= word@.subrange(0, sub.len() as int) {
                            assert(sub[i as int] == word@.subrange(0, sub.len() as int)[i as int]);
                        }
                    }
                }
                return false;
            }
            i = i + 1;
        }
        assert(self@.subrange(from as int, to as int) =~= word@.subrange(0, want as int));
        true
    }

    /// The characters from `from` to `to` as a string.
    pub fn text(&self, from: usize, to: usize) -> (t: String)
        requires
            self.wf(),
            from <= to <= self@.len(),
        ensures
            t@ == self@.subrange(from as int, to as int),
    {
        self.source.as_str().substring_char(from, to).to_owned()
    }

    pub fn len(&self) -> (n: usize)
        ensures
            n == self@.len(),
    {
        self.chars.len()
    }
}

} // verus!
