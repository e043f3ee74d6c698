//! Character classification and the UTF-8 / UTF-16 widths of characters.
use vstd::prelude::*;
use vstd::utf8::*;

verus! {

/// Whether `c` has the Unicode `Alphanumeric` property that `char::is_alphanumeric`
/// decides (`Alphabetic` or `Numeric`).
pub uninterp spec fn alphanumeric(c: char) -> bool;

/// An ASCII letter or digit.
pub open spec fn ascii_alphanumeric(c: char) -> bool {
    let v = c as u32;
    ||| 48 <= v <= 57
    ||| 65 <= v <= 90
    ||| 97 <= v <= 122
}

/// `char::is_alphanumeric`: claimed to return `alphanumeric(c)`, a property of
/// `c` alone that comes from the Unicode tables bundled with std, and, among
/// ASCII characters, to accept exactly the letters and digits (so NUL and
/// punctuation are rejected): std documents the property as `Alphabetic` or
/// general category `Nd`/`Nl`/`No`, and in the ASCII range the `Alphabetic`
/// characters are the Latin letters and the numeric ones the digits `0`-`9`.
/// Which characters beyond ASCII it accepts is left to the name.
#[verifier::external_body]
fn char_is_alphanumeric(c: char) -> (r: bool)
    ensures
        r == alphanumeric(c),
        c == '\0' ==> !r,
        (c as u32) < 128 ==> (r <==> ascii_alphanumeric(c)),
{
    c.is_alphanumeric()
}

/// A character that belongs to a word: alphanumeric or an apostrophe.
pub open spec fn word_char(c: char) -> bool {
    alphanumeric(c) || c == '\''
}

/// A character belongs to a word exactly when it is alphanumeric or an
/// apostrophe.
pub proof fn lemma_word_char_exactly(c: char)
    ensures
        word_char(c) <==> (alphanumeric(c) || c == '\''),
{
}

/// Decides `word_char`.
pub fn is_word_char(c: char) -> (r: bool)
    ensures
        r == word_char(c),
        r == (alphanumeric(c) || c == '\''),
        c == '\0' ==> !r,
        (c as u32) < 128 ==> (r <==> (ascii_alphanumeric(c) || c == '\'')),
{
    c == '\'' || char_is_alphanumeric(c)
}

/// Every ASCII character of `s` is a letter, a digit or an apostrophe: `s`
/// holds no ASCII space, control character or punctuation but `'`.
pub open spec fn ascii_word_text(s: Seq<char>) -> bool {
    forall|j: int|
        0 <= j < s.len() && ((#[trigger] s[j]) as u32) < 128 ==> ascii_alphanumeric(s[j]) || s[j]
            == '\''
}

/// `s` holds no NUL character.
pub open spec fn no_nul(s: Seq<char>) -> bool {
    forall|j: int| 0 <= j < s.len() ==> #[trigger] s[j] != '\0'
}

/// The Unicode `White_Space` property, which `char::is_whitespace` and
/// `str::trim` go by.
pub open spec fn white_space(c: char) -> bool {
    let v = c as u32;
    ||| 0x09 <= v <= 0x0d
    ||| v == 0x20
    ||| v == 0x85
    ||| v == 0xa0
    ||| v == 0x1680
    ||| 0x2000 <= v <= 0x200a
    ||| v == 0x2028
    ||| v == 0x2029
    ||| v == 0x202f
    ||| v == 0x205f
    ||| v == 0x3000
}

/// Decides `white_space`.
pub fn is_white_space(c: char) -> (r: bool)
    ensures
        r == white_space(c),
{
    let v = c as u32;
    (0x09 <= v && v <= 0x0d) || v == 0x20 || v == 0x85 || v == 0xa0 || v == 0x1680 || (0x2000
        <= v && v <= 0x200a) || v == 0x2028 || v == 0x2029 || v == 0x202f || v == 0x205f || v
        == 0x3000
}

/// Number of bytes of the UTF-8 encoding of `c`.
pub open spec fn utf8_width(c: char) -> nat {
    let v = c as u32;
    if v <= 0x7f {
        1
    } else if v <= 0x7ff {
        2
    } else if v <= 0xffff {
        3
    } else {
        4
    }
}

/// Number of UTF-16 code units that encode `c`.
pub open spec fn utf16_width(c: char) -> nat {
    if (c as u32) <= 0xffff {
        1
    } else {
        2
    }
}

/// Number of bytes of the UTF-8 encoding of `s`.
pub open spec fn utf8_len(s: Seq<char>) -> nat
    decreases s.len(),
{
    if s.len() == 0 {
        0
    } else {
        utf8_len(s.drop_last()) + utf8_width(s.last())
    }
}

/// Number of UTF-16 code units that encode `s`.
pub open spec fn utf16_len(s: Seq<char>) -> nat
    decreases s.len(),
{
    if s.len() == 0 {
        0
    } else {
        utf16_len(s.drop_last()) + utf16_width(s.last())
    }
}

/// `char::len_utf8`, computed.
pub fn len_utf8(c: char) -> (n: usize)
    ensures
        n == utf8_width(c),
{
    let v = c as u32;
    if v <= 0x7f {
        1
    } else if v <= 0x7ff {
        2
    } else if v <= 0xffff {
        3
    } else {
        4
    }
}

/// `char::len_utf16`, computed.
pub fn len_utf16(c: char) -> (n: usize)
    ensures
        n == utf16_width(c),
{
    if (c as u32) <= 0xffff {
        1
    } else {
        2
    }
}

/// `String::push`: claimed to append `c` to the end of `s`.
#[verifier::external_body]
pub(crate) fn push_char(s: &mut String, c: char)
    ensures
        final(s)@ == old(s)@.push(c),
{
    s.push(c)
}

/// Bytes of UTF-8 in a prefix never exceed those of a longer prefix.
pub proof fn lemma_utf8_len_prefix(s: Seq<char>, i: int, j: int)
    requires
        0 <= i <= j <= s.len(),
    ensures
        utf8_len(s.take(i)) <= utf8_len(s.take(j)),
    decreases j - i,
{
    if i < j {
        lemma_utf8_len_prefix(s, i, j - 1);
        assert(s.take(j).drop_last() == s.take(j - 1));
    }
}

/// UTF-8 byte length, split at the first character.
pub proof fn lemma_utf8_len_front(s: Seq<char>)
    requires
        s.len() > 0,
    ensures
        utf8_len(s) == utf8_width(s[0]) + utf8_len(s.drop_first()),
    decreases s.len(),
{
    if s.len() > 1 {
        lemma_utf8_len_front(s.drop_last());
        assert(s.drop_last().drop_first() == s.drop_first().drop_last());
        assert(s.drop_first().last() == s.last());
        assert(s.drop_last()[0] == s[0]);
        assert(utf8_len(s) == utf8_len(s.drop_last()) + utf8_width(s.last()));
        assert(utf8_len(s.drop_first()) == utf8_len(s.drop_first().drop_last()) + utf8_width(
            s.drop_first().last(),
        ));
    } else {
        assert(s.drop_first().len() == 0);
        assert(s.drop_last().len() == 0);
        assert(utf8_len(s.drop_first()) == 0);
        assert(utf8_len(s.drop_last()) == 0);
        assert(s.last() == s[0]);
    }
}

/// UTF-16 length, split at the first character.
pub proof fn lemma_utf16_len_front(s: Seq<char>)
    requires
        s.len() > 0,
    ensures
        utf16_len(s) == utf16_width(s[0]) + utf16_len(s.drop_first()),
    decreases s.len(),
{
    if s.len() > 1 {
        lemma_utf16_len_front(s.drop_last());
        assert(s.drop_last().drop_first() == s.drop_first().drop_last());
        assert(s.drop_first().last() == s.last());
        assert(s.drop_last()[0] == s[0]);
        assert(utf16_len(s) == utf16_len(s.drop_last()) + utf16_width(s.last()));
        assert(utf16_len(s.drop_first()) == utf16_len(s.drop_first().drop_last()) + utf16_width(
            s.drop_first().last(),
        ));
    } else {
        assert(s.drop_first().len() == 0);
        assert(s.drop_last().len() == 0);
        assert(utf16_len(s.drop_first()) == 0);
        assert(utf16_len(s.drop_last()) == 0);
        assert(s.last() == s[0]);
    }
}

/// The characters of `s`, in order.
pub fn chars_of(s: &str) -> (v: Vec<char>)
    ensures
        v@ == s@,
{
    let mut v: Vec<char> = Vec::new();
    for c in it: s.chars()
        invariant
            it.seq() == s@,
            v@ == it.seq().take(it.index()),
    {
        v.push(c);
    }
    v
}

/// The width of a character agrees with vstd's UTF-8 encoding.
pub proof fn lemma_utf8_width(c: char)
    ensures
        encode_scalar(c as u32).len() == utf8_width(c),
{
    char_is_scalar(c);
}

/// UTF-8 encoding distributes over concatenation.
pub proof fn lemma_encode_utf8_concat(a: Seq<char>, b: Seq<char>)
    ensures
        encode_utf8(a + b) == encode_utf8(a) + encode_utf8(b),
    decreases a.len(),
{
    if a.len() == 0 {
        assert(a + b == b);
        assert(encode_utf8(a) =~= Seq::<u8>::empty());
        assert(encode_utf8(a) + encode_utf8(b) =~= encode_utf8(b));
    } else {
        lemma_encode_utf8_concat(a.drop_first(), b);
        assert((a + b).drop_first() == a.drop_first() + b);
        assert((a + b)[0] == a[0]);
        assert(encode_utf8(a + b) == encode_scalar(a[0] as u32) + encode_utf8(a.drop_first() + b));
        assert(encode_utf8(a + b) =~= encode_utf8(a) + encode_utf8(b));
    }
}

/// The byte length computed by `utf8_len` is that of vstd's UTF-8 encoding.
pub proof fn lemma_utf8_len(s: Seq<char>)
    ensures
        encode_utf8(s).len() == utf8_len(s),
    decreases s.len(),
{
    if s.len() > 0 {
        lemma_utf8_len(s.drop_last());
        let l = seq![s.last()];
        assert(s == s.drop_last() + l);
        lemma_encode_utf8_concat(s.drop_last(), l);
        assert(l.drop_first() =~= Seq::<char>::empty());
        assert(encode_utf8(l.drop_first()) =~= Seq::<u8>::empty());
        assert(encode_utf8(l) =~= encode_scalar(s.last() as u32));
        lemma_utf8_width(s.last());
    } else {
        assert(encode_utf8(s) =~= Seq::<u8>::empty());
    }
}

} // verus!
