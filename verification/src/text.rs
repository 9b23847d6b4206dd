//! Text as a sequence of characters: whitespace, trimming, slicing and building strings.

use vstd::prelude::*;
use vstd::utf8::*;

verus! {

/// `String::push`: appends the given character to the end of the string.
pub assume_specification[ std::string::String::push ](s: &mut std::string::String, ch: char)
    ensures
        final(s)@ == old(s)@.push(ch),
;

/// The characters with the Unicode property White_Space.
pub open spec fn whitespace(c: char) -> bool {
    ||| '\u{9}' <= c <= '\u{d}'
    ||| c == ' '
    ||| c == '\u{85}'
    ||| c == '\u{a0}'
    ||| c == '\u{1680}'
    ||| '\u{2000}' <= c <= '\u{200a}'
    ||| c == '\u{2028}'
    ||| c == '\u{2029}'
    ||| c == '\u{202f}'
    ||| c == '\u{205f}'
    ||| c == '\u{3000}'
}

/// Whether `c` has the Unicode property White_Space.
pub fn is_whitespace(c: char) -> (result: bool)
    ensures
        result == whitespace(c),
{
    ('\u{9}' <= c && c <= '\u{d}') || c == ' ' || c == '\u{85}' || c == '\u{a0}' || c == '\u{1680}'
        || ('\u{2000}' <= c && c <= '\u{200a}') || c == '\u{2028}' || c == '\u{2029}' || c
        == '\u{202f}' || c == '\u{205f}' || c == '\u{3000}'
}

/// `text` without the whitespace at its end.
pub open spec fn trimmed(text: Seq<char>) -> Seq<char>
    decreases text.len(),
{
    if text.len() > 0 && whitespace(text.last()) {
        trimmed(text.drop_last())
    } else {
        text
    }
}

/// The number of bytes that the first `i` characters of `text` take in UTF-8.
pub open spec fn byte_offset(text: Seq<char>, i: int) -> int {
    encode_utf8(text.take(i)).len() as int
}

/// The characters of `s`, in order.
pub fn to_chars(s: &str) -> (result: Vec<char>)
    ensures
        result@ == s@,
{
    let mut out: Vec<char> = Vec::new();
    for c in it: s.chars()
        invariant
            out@ == it.seq().take(it.index()),
            it.seq() == s@,
    {
        out.push(c);
    }
    out
}

/// The number of bytes that `c` takes in UTF-8.
pub fn char_width(c: char) -> (result: usize)
    ensures
        result == encode_scalar(c as u32).len(),
        1 <= result <= 4,
{
    let code: u32 = c as u32;
    if code <= 0x7f {
        1
    } else if code <= 0x7ff {
        2
    } else if code <= 0xffff {
        3
    } else {
        4
    }
}

proof fn lemma_encode_concat(a: Seq<char>, b: Seq<char>)
    ensures
        encode_utf8(a + b) == encode_utf8(a) + encode_utf8(b),
    decreases a.len(),
{
    if a.len() == 0 {
        assert(a + b =~= b);
    } else {
        assert((a + b).drop_first() =~= a.drop_first() + b);
        lemma_encode_concat(a.drop_first(), b);
    }
}

/// Each character moves the byte offset on by its width.
pub proof fn lemma_byte_offset_step(text: Seq<char>, i: int)
    requires
        0 <= i < text.len(),
    ensures
        byte_offset(text, i + 1) == byte_offset(text, i) + encode_scalar(text[i] as u32).len(),
{
    let one = seq![text[i]];
    assert(text.take(i + 1) =~= text.take(i) + one);
    lemma_encode_concat(text.take(i), one);
    assert(one.drop_first() =~= Seq::<char>::empty());
    assert(encode_utf8(one.drop_first()) =~= Seq::<u8>::empty());
    assert(encode_utf8(one) =~= encode_scalar(one[0] as u32));
}

/// Byte offsets grow with the number of characters, up to the length of the whole text.
pub proof fn lemma_byte_offset_bounds(text: Seq<char>, i: int, j: int)
    requires
        0 <= i <= j <= text.len(),
    ensures
        byte_offset(text, 0) == 0,
        0 <= byte_offset(text, i) <= byte_offset(text, j) <= encode_utf8(text).len(),
        byte_offset(text, text.len() as int) == encode_utf8(text).len(),
{
    assert(text.take(0) =~= Seq::<char>::empty());
    assert(text.take(text.len() as int) =~= text);
    assert(text.take(j) =~= text.take(i) + text.subrange(i, j));
    lemma_encode_concat(text.take(i), text.subrange(i, j));
    assert(text =~= text.take(j) + text.skip(j));
    lemma_encode_concat(text.take(j), text.skip(j));
}

proof fn lemma_offset_is_boundary(text: Seq<char>, i: int)
    requires
        0 <= i <= text.len(),
    ensures
        is_char_boundary(encode_utf8(text), byte_offset(text, i)),
    decreases text.len(),
{
    encode_utf8_valid_utf8(text);
    if i == 0 {
        assert(text.take(0) =~= Seq::<char>::empty());
    } else {
        let rest = text.drop_first();
        encode_utf8_first_scalar(text);
        assert(pop_first_scalar(encode_utf8(text)) =~= encode_utf8(rest));
        assert(text.take(i).drop_first() =~= rest.take(i - 1));
        lemma_offset_is_boundary(rest, i - 1);
        lemma_byte_offset_bounds(text, i, i);
    }
}

proof fn lemma_encode_injective(a: Seq<char>, b: Seq<char>)
    requires
        encode_utf8(a) == encode_utf8(b),
    ensures
        a == b,
{
    encode_utf8_decode_utf8(a);
    encode_utf8_decode_utf8(b);
}

/// Splits `s` after its first `i` characters, which take `at` bytes.
fn split_text(s: &str, at: usize, Ghost(i): Ghost<int>) -> (result: (&str, &str))
    requires
        0 <= i <= s@.len(),
        at == byte_offset(s@, i),
    ensures
        result.0@ == s@.take(i),
        result.1@ == s@.skip(i),
{
    proof {
        lemma_offset_is_boundary(s@, i);
        lemma_byte_offset_bounds(s@, i, i);
    }
    let result = s.split_at(at);
    proof {
        assert(s@ =~= s@.take(i) + s@.skip(i));
        lemma_encode_concat(s@.take(i), s@.skip(i));
        assert(encode_utf8(result.0@) =~= encode_utf8(s@.take(i)));
        assert(encode_utf8(result.1@) =~= encode_utf8(s@.skip(i)));
        lemma_encode_injective(result.0@, s@.take(i));
        lemma_encode_injective(result.1@, s@.skip(i));
    }
    result
}

/// The part of `s` from byte `from` to byte `to`: its characters `i` to `j`.
pub(crate) fn slice_text(
    s: &str,
    from: usize,
    to: usize,
    Ghost(i): Ghost<int>,
    Ghost(j): Ghost<int>,
) -> (result: &str)
    requires
        0 <= i <= j <= s@.len(),
        from == byte_offset(s@, i),
        to == byte_offset(s@, j),
    ensures
        result@ == s@.subrange(i, j),
{
    let head: &str = split_text(s, to, Ghost(j)).0;
    proof {
        assert(s@.take(j).take(i) =~= s@.take(i));
    }
    let result: &str = split_text(head, from, Ghost(i)).1;
    proof {
        assert(s@.take(j).skip(i) =~= s@.subrange(i, j));
    }
    result
}

proof fn lemma_trimmed_take(text: Seq<char>, n: int)
    requires
        0 <= n <= text.len(),
        forall|k: int| n <= k < text.len() ==> whitespace(#[trigger] text[k]),
        n == 0 || !whitespace(text[n - 1]),
    ensures
        trimmed(text) == text.take(n),
    decreases text.len(),
{
    if n < text.len() {
        assert(text.drop_last().take(n) =~= text.take(n));
        lemma_trimmed_take(text.drop_last(), n);
    } else {
        assert(text.take(n) =~= text);
    }
}

/// `s` without the whitespace at its end.
pub fn trim_end(s: &str) -> (result: &str)
    ensures
        result@ == trimmed(s@),
{
    let chars: Vec<char> = to_chars(s);
    let mut n: usize = chars.len();
    let mut width: usize = s.as_bytes().len();
    proof {
        lemma_byte_offset_bounds(s@, 0, s@.len() as int);
    }
    while n > 0 && is_whitespace(chars[n - 1])
        invariant
            chars@ == s@,
            n <= chars@.len(),
            width == byte_offset(s@, n as int),
            forall|k: int| n <= k < chars@.len() ==> whitespace(#[trigger] chars@[k]),
        decreases n,
    {
        proof {
            lemma_byte_offset_step(s@, n - 1);
        }
        n = n - 1;
        width = width - char_width(chars[n]);
    }
    proof {
        lemma_trimmed_take(s@, n as int);
    }
    split_text(s, width, Ghost(n as int)).0
}

/// Whether the two texts have the same characters.
pub fn same_text(a: &str, b: &str) -> (result: bool)
    ensures
        result == (a@ == b@),
{
    a.to_owned() == b.to_owned()
}

} // verus!
