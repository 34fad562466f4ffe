//! Text: numbers in decimal, characters replaced, pieces joined.

use itertools::Itertools;
use vstd::prelude::*;

verus! {

/// `String::push`: the same text, then `c`.
#[verifier::external_body]
pub(crate) fn string_push(text: &mut String, c: char)
    ensures
        final(text)@ == old(text)@.push(c),
{
    text.push(c)
}

/// `Itertools::join` over strings: the pieces in their order, with
/// `separator` between each two of them.
#[verifier::external_body]
pub(crate) fn join_strings(pieces: &Vec<String>, separator: &str) -> (text: String)
    ensures
        text@ == joined(pieces.deep_view(), separator@),
{
    pieces.iter().join(separator)
}

/// The pieces in their order, with `separator` between each two of them.
pub open spec fn joined(pieces: Seq<Seq<char>>, separator: Seq<char>) -> Seq<char>
    decreases pieces.len(),
{
    if pieces.len() == 0 {
        Seq::<char>::empty()
    } else if pieces.len() == 1 {
        pieces[0]
    } else {
        joined(pieces.drop_last(), separator) + separator + pieces.last()
    }
}

/// The characters of `text`.
pub fn chars_of(text: &str) -> (chars: Vec<char>)
    ensures
        chars@ == text@,
{
    let mut chars: Vec<char> = Vec::new();
    for c in it: text.chars()
        invariant
            it.seq() == text@,
            chars@ == it.seq().take(it.index() as int),
    {
        chars.push(c);
        proof {
            assert(chars@ =~= it.seq().take(it.index() + 1));
        }
    }
    proof {
        assert(chars@ =~= text@);
    }
    chars
}

/// The decimal digit of a number below ten.
pub open spec fn digit(d: nat) -> char {
    if d == 0 {
        '0'
    } else if d == 1 {
        '1'
    } else if d == 2 {
        '2'
    } else if d == 3 {
        '3'
    } else if d == 4 {
        '4'
    } else if d == 5 {
        '5'
    } else if d == 6 {
        '6'
    } else if d == 7 {
        '7'
    } else if d == 8 {
        '8'
    } else {
        '9'
    }
}

/// A number in decimal, without leading zeros.
pub open spec fn decimal(n: nat) -> Seq<char>
    decreases n,
{
    if n < 10 {
        seq![digit(n)]
    } else {
        decimal(n / 10).push(digit(n % 10))
    }
}

/// The decimal digit of a number below ten.
pub fn digit_char(d: usize) -> (c: char)
    requires
        d < 10,
    ensures
        c == digit(d as nat),
{
    if d == 0 {
        '0'
    } else if d == 1 {
        '1'
    } else if d == 2 {
        '2'
    } else if d == 3 {
        '3'
    } else if d == 4 {
        '4'
    } else if d == 5 {
        '5'
    } else if d == 6 {
        '6'
    } else if d == 7 {
        '7'
    } else if d == 8 {
        '8'
    } else {
        '9'
    }
}

/// Appends `n` in decimal.
pub fn push_decimal(text: &mut String, n: usize)
    ensures
        final(text)@ == old(text)@ + decimal(n as nat),
    decreases n,
{
    if n >= 10 {
        push_decimal(text, n / 10);
    }
    string_push(text, digit_char(n % 10));
    proof {
        assert(final(text)@ =~= old(text)@ + decimal(n as nat));
    }
}

/// Appends the characters `chars[from..to]`.
pub fn push_chars(text: &mut String, chars: &Vec<char>, from: usize, to: usize)
    requires
        from <= to <= chars.len(),
    ensures
        final(text)@ == old(text)@ + chars@.subrange(from as int, to as int),
{
    let mut idx: usize = from;
    while idx < to
        invariant
            from <= idx <= to <= chars.len(),
            text@ == old(text)@ + chars@.subrange(from as int, idx as int),
        decreases to - idx,
    {
        string_push(text, chars[idx]);
        idx += 1;
        proof {
            assert(text@ =~= old(text)@ + chars@.subrange(from as int, idx as int));
        }
    }
}

/// Whether `c` is white space as Unicode defines it (the property
/// White_Space).
pub open spec fn is_whitespace(c: char) -> bool {
    let n = c as u32;
    ||| 0x09 <= n <= 0x0d
    ||| n == 0x20
    ||| n == 0x85
    ||| n == 0xa0
    ||| n == 0x1680
    ||| 0x2000 <= n <= 0x200a
    ||| n == 0x2028
    ||| n == 0x2029
    ||| n == 0x202f
    ||| n == 0x205f
    ||| n == 0x3000
}

/// Whether `c` is white space as Unicode defines it.
pub fn char_is_whitespace(c: char) -> (white: bool)
    ensures
        white == is_whitespace(c),
{
    let n = c as u32;
    (0x09 <= n && n <= 0x0d) || n == 0x20 || n == 0x85 || n == 0xa0 || n == 0x1680 || (0x2000 <= n
        && n <= 0x200a) || n == 0x2028 || n == 0x2029 || n == 0x202f || n == 0x205f || n == 0x3000
}

/// The text without the white space at its end.
pub open spec fn trim_end(text: Seq<char>) -> Seq<char>
    decreases text.len(),
{
    if text.len() > 0 && is_whitespace(text.last()) {
        trim_end(text.drop_last())
    } else {
        text
    }
}

/// Length of the text without the white space at its end.
pub fn trimmed_len(chars: &Vec<char>) -> (n: usize)
    ensures
        n <= chars.len(),
        chars@.take(n as int) == trim_end(chars@),
{
    let mut n: usize = chars.len();
    proof {
        assert(chars@.take(n as int) =~= chars@);
    }
    while n > 0 && char_is_whitespace(chars[n - 1])
        invariant
            n <= chars.len(),
            trim_end(chars@.take(n as int)) == trim_end(chars@),
        decreases n,
    {
        proof {
            assert(chars@.take(n as int).drop_last() =~= chars@.take(n - 1));
        }
        n -= 1;
    }
    n
}

} // verus!
