//! Character-level helpers: UTF-8 byte lengths of characters and strings,
//! and the one string-building primitive the crate takes on trust.

use vstd::prelude::*;
use vstd::utf8::encode_scalar;
use vstd::utf8::encode_utf8;

verus! {

/// The number of bytes the UTF-8 encoding of one character takes.
pub open spec fn char_utf8_len(c: char) -> int {
    encode_scalar(c as u32).len() as int
}

/// The number of bytes the UTF-8 encoding of a character sequence takes.
pub open spec fn utf8_len_of(s: Seq<char>) -> int {
    encode_utf8(s).len() as int
}

/// UTF-8 encodes a concatenation piecewise.
pub proof fn lemma_encode_utf8_concat(a: Seq<char>, b: Seq<char>)
    ensures
        encode_utf8(a + b) == encode_utf8(a) + encode_utf8(b),
    decreases a.len(),
{
    if a.len() == 0 {
        assert(a + b =~= b);
        assert(encode_utf8(a) + encode_utf8(b) =~= encode_utf8(b));
    } else {
        assert((a + b).drop_first() =~= a.drop_first() + b);
        lemma_encode_utf8_concat(a.drop_first(), b);
        assert(encode_utf8(a + b) =~= encode_utf8(a) + encode_utf8(b));
    }
}

/// Appending one character adds exactly its own encoding length.
pub proof fn lemma_utf8_len_push(s: Seq<char>, c: char)
    ensures
        utf8_len_of(s.push(c)) == utf8_len_of(s) + char_utf8_len(c),
{
    assert(s.push(c) =~= s + seq![c]);
    lemma_encode_utf8_concat(s, seq![c]);
    assert(encode_utf8(seq![c]) =~= encode_scalar(c as u32) + encode_utf8(
        Seq::<char>::empty(),
    )) by {
        assert(seq![c].drop_first() =~= Seq::<char>::empty());
    }
}

/// A character encodes to between one and four bytes.
pub proof fn lemma_char_utf8_len_bounds(c: char)
    ensures
        1 <= char_utf8_len(c) <= 4,
{
}

/// The number of bytes the UTF-8 encoding of `c` takes.
pub fn utf8_len(c: char) -> (n: usize)
    ensures
        n == char_utf8_len(c),
{
    let v = c as u32;
    if v <= 0x7F {
        1
    } else if v <= 0x7FF {
        2
    } else if v <= 0xFFFF {
        3
    } else {
        4
    }
}

/// Appends one character to a string.
///
/// Relies on `String::push`: appends the given char to the end of this
/// `String`.
#[verifier::external_body]
pub fn push_char(s: &mut String, c: char)
    ensures
        final(s)@ == old(s)@.push(c),
{
    s.push(c);
}

/// The characters of a string, in order, as a vector.
pub fn str_chars(s: &str) -> (v: Vec<char>)
    ensures
        v@ == s@,
{
    let len = s.unicode_len();
    let mut v: Vec<char> = Vec::new();
    let mut i: usize = 0;
    while i < len
        invariant
            i <= len,
            len == s@.len(),
            v@ == s@.subrange(0, i as int),
        decreases len - i,
    {
        v.push(s.get_char(i));
        proof {
            assert(v@ =~= s@.subrange(0, i as int + 1));
        }
        i = i + 1;
    }
    proof {
        assert(v@ =~= s@);
    }
    v
}

/// The first position at or after `from` where `c` occurs, or the length of
/// the sequence if it does not.
pub open spec fn find_char(cs: Seq<char>, from: int, c: char) -> int
    decreases cs.len() - from,
{
    if from < 0 || from >= cs.len() {
        cs.len() as int
    } else if cs[from] == c {
        from
    } else {
        find_char(cs, from + 1, c)
    }
}

/// The found position lies between `from` and the end.
pub proof fn lemma_find_char_bounds(cs: Seq<char>, from: int, c: char)
    requires
        0 <= from <= cs.len(),
    ensures
        from <= find_char(cs, from, c) <= cs.len(),
        find_char(cs, from, c) < cs.len() ==> cs[find_char(cs, from, c)] == c,
    decreases cs.len() - from,
{
    if from < cs.len() && cs[from] != c {
        lemma_find_char_bounds(cs, from + 1, c);
    }
}

/// Finds the first occurrence of `c` at or after `from`, or the length.
pub(crate) fn find_char_exec(s: &str, from: usize, c: char) -> (r: usize)
    requires
        from <= s@.len(),
    ensures
        r == find_char(s@, from as int, c),
        from <= r <= s@.len(),
        r < s@.len() ==> s@[r as int] == c,
{
    let len = s.unicode_len();
    let mut i = from;
    loop
        invariant_except_break
            from <= i <= len,
            len == s@.len(),
            find_char(s@, from as int, c) == find_char(s@, i as int, c),
        ensures
            i == find_char(s@, from as int, c),
            from <= i <= len,
            i < len ==> s@[i as int] == c,
        decreases len - i,
    {
        if i >= len {
            break ;
        }
        if s.get_char(i) == c {
            break ;
        }
        i = i + 1;
    }
    i
}


/// The decimal digit character of `d`.
pub open spec fn digit_char(d: int) -> char {
    ((d + 48) as u8) as char
}

/// The decimal digits of `n`, most significant first.
pub open spec fn dec_str(n: int) -> Seq<char>
    decreases n,
{
    if n < 0 {
        Seq::empty()
    } else if n < 10 {
        seq![digit_char(n)]
    } else {
        dec_str(n / 10).push(digit_char(n % 10))
    }
}

/// Appends the decimal digits of `n`.
pub fn append_dec(s: &mut String, n: usize)
    ensures
        final (s)@ == old(s)@ + dec_str(n as int),
    decreases n,
{
    if n < 10 {
        let d: u8 = 48 + (n as u8);
        push_char(s, d as char);
        proof {
            assert(old(s)@.push(digit_char(n as int)) =~= old(s)@ + dec_str(n as int));
        }
    } else {
        append_dec(s, n / 10);
        let d: u8 = 48 + ((n % 10) as u8);
        push_char(s, d as char);
        proof {
            assert((old(s)@ + dec_str(n as int / 10)).push(digit_char(n as int % 10)) =~= old(
                s,
            )@ + dec_str(n as int));
        }
    }
}

} // verus!
