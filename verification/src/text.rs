//! Character classes and small string-building helpers shared by the lexer
//! and the diagnostics renderer.

use vstd::prelude::*;

verus! {

/// Whether `c` has the Unicode `White_Space` property.
///
/// The property is defined by the Unicode Character Database; this crate
/// does not restate the table and learns its value only from
/// `char::is_whitespace`.
pub uninterp spec fn is_unicode_whitespace(c: char) -> bool;

/// Trusted: `char::is_whitespace` of the standard library reports exactly
/// the `White_Space` property of its argument. Nothing is claimed about
/// which characters have the property.
pub assume_specification[ char::is_whitespace ](c: char) -> (r: bool)
    ensures
        r == is_unicode_whitespace(c),
;

/// Trusted: `String::push` of the standard library appends the given
/// character to the end of the string and changes nothing else.
pub assume_specification[ String::push ](s: &mut String, c: char)
    ensures
        final(s)@ == old(s)@.push(c),
;

/// ASCII letters, `a`-`z` and `A`-`Z`.
pub open spec fn is_letter(c: char) -> bool {
    ('a' <= c && c <= 'z') || ('A' <= c && c <= 'Z')
}

/// ASCII decimal digits, `0`-`9`.
pub open spec fn is_digit(c: char) -> bool {
    '0' <= c && c <= '9'
}

/// ASCII letters and digits.
pub open spec fn is_alnum(c: char) -> bool {
    is_letter(c) || is_digit(c)
}

/// The lower-case form of an ASCII upper-case letter; any other character
/// is left as it is.
pub open spec fn lower(c: char) -> char {
    if 'A' <= c && c <= 'Z' {
        ((c as u8) + 32) as char
    } else {
        c
    }
}

/// `s` with every ASCII upper-case letter folded to lower case.
pub open spec fn folded(s: Seq<char>) -> Seq<char> {
    Seq::new(s.len(), |i: int| lower(s[i]))
}

/// Whether `c` is an ASCII letter.
pub fn letter(c: char) -> (r: bool)
    ensures
        r == is_letter(c),
{
    (c >= 'a' && c <= 'z') || (c >= 'A' && c <= 'Z')
}

/// Whether `c` is an ASCII decimal digit.
pub fn digit(c: char) -> (r: bool)
    ensures
        r == is_digit(c),
{
    c >= '0' && c <= '9'
}

/// Whether `c` is an ASCII letter or digit.
pub fn alnum(c: char) -> (r: bool)
    ensures
        r == is_alnum(c),
{
    letter(c) || digit(c)
}

/// The lower-case form of an ASCII upper-case letter; any other character
/// as it is.
pub fn to_lower(c: char) -> (r: char)
    ensures
        r == lower(c),
{
    if c >= 'A' && c <= 'Z' {
        ((c as u8) + 32) as char
    } else {
        c
    }
}

/// The character that writes the decimal digit `d`.
pub open spec fn digit_char(d: nat) -> char
    recommends
        d < 10,
{
    (48 + d) as char
}

/// The decimal representation of `n`, most significant digit first, without
/// leading zeros (`0` is written `"0"`).
pub open spec fn decimal(n: nat) -> Seq<char>
    decreases n,
{
    if n < 10 {
        seq![digit_char(n)]
    } else {
        decimal(n / 10).push(digit_char(n % 10))
    }
}

/// Appends the decimal representation of `n` to `out`.
pub fn push_decimal(out: &mut String, n: usize)
    ensures
        final(out)@ == old(out)@ + decimal(n as nat),
    decreases n,
{
    if n >= 10 {
        push_decimal(out, n / 10);
    }
    let d: u8 = (n % 10) as u8;
    out.push((48u8 + d) as char);
    proof {
        let ghost before = old(out)@;
        if n >= 10 {
            assert(out@ =~= before + decimal((n / 10) as nat).push(digit_char((n % 10) as nat)));
        } else {
            assert(out@ =~= before + seq![digit_char(n as nat)]);
        }
    }
}

/// The characters of `s`, in order.
pub fn chars_of(s: &str) -> (v: Vec<char>)
    ensures
        v@ == s@,
{
    let mut v: Vec<char> = Vec::new();
    for c in it: s.chars()
        invariant
            v@ == it.seq().take(it.index() as int),
    {
        v.push(c);
    }
    v
}

/// Appends the characters `src[from..to]` to `out`.
pub(crate) fn push_chars(out: &mut String, src: &Vec<char>, from: usize, to: usize)
    requires
        from <= to <= src.len(),
    ensures
        final(out)@ == old(out)@ + src@.subrange(from as int, to as int),
{
    let mut i: usize = from;
    while i < to
        invariant
            from <= i <= to <= src.len(),
            out@ == old(out)@ + src@.subrange(from as int, i as int),
        decreases to - i,
    {
        out.push(src[i]);
        i += 1;
        assert(src@.subrange(from as int, i as int) =~= src@.subrange(from as int, i - 1).push(
            src@[i - 1],
        ));
    }
}

/// Appends `n` copies of `c` to `out`.
pub fn push_repeated(out: &mut String, c: char, n: usize)
    ensures
        final(out)@ == old(out)@ + Seq::new(n as nat, |i: int| c),
{
    let mut i: usize = 0;
    while i < n
        invariant
            i <= n,
            out@ == old(out)@ + Seq::new(i as nat, |k: int| c),
        decreases n - i,
    {
        out.push(c);
        i += 1;
        assert(Seq::new(i as nat, |k: int| c) =~= Seq::new((i - 1) as nat, |k: int| c).push(c));
    }
}

/// `s` without its longest suffix of white-space characters.
pub open spec fn trimmed_end(s: Seq<char>) -> Seq<char>
    decreases s.len(),
{
    if s.len() > 0 && is_unicode_whitespace(s.last()) {
        trimmed_end(s.drop_last())
    } else {
        s
    }
}

/// Where `src[from..to]` ends once its trailing white space is removed.
pub(crate) fn trimmed_end_of(src: &Vec<char>, from: usize, to: usize) -> (end: usize)
    requires
        from <= to <= src.len(),
    ensures
        from <= end <= to,
        src@.subrange(from as int, end as int) == trimmed_end(
            src@.subrange(from as int, to as int),
        ),
{
    let mut end: usize = to;
    while end > from && src[end - 1].is_whitespace()
        invariant
            from <= end <= to <= src.len(),
            trimmed_end(src@.subrange(from as int, end as int)) == trimmed_end(
                src@.subrange(from as int, to as int),
            ),
        decreases end,
    {
        proof {
            let cur = src@.subrange(from as int, end as int);
            assert(cur.last() == src@[end - 1]);
            assert(cur.drop_last() =~= src@.subrange(from as int, end - 1));
        }
        end -= 1;
    }
    proof {
        let cur = src@.subrange(from as int, end as int);
        if end > from {
            assert(cur.last() == src@[end - 1]);
        }
    }
    end
}

} // verus!
