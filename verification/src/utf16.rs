//! UTF-16, as the Windows spell-checking service speaks it: encoding a text,
//! decoding a range of code units, and turning UTF-16 offsets into UTF-8 ones.
use vstd::prelude::*;
use vstd::utf8::{char_is_scalar, char_u32_cast, encode_utf8, is_scalar};
use crate::chars::{
    lemma_utf16_len_front, lemma_utf8_len_front, utf16_len, utf8_len, chars_of, len_utf16, len_utf8, lemma_utf8_len, push_char, utf16_width, utf8_width,
};
use crate::SpellingError;
use crate::words::{addresses, lemma_byte_range};
use vstd::utf8::is_char_boundary;

verus! {

/// The UTF-16 code units of `c`: one for a character of the Basic Multilingual
/// Plane, else a high and a low surrogate.
pub open spec fn utf16_units(c: char) -> Seq<u16> {
    let v = c as u32;
    if v <= 0xffff {
        seq![v as u16]
    } else {
        let w = v - 0x10000;
        seq![(0xd800 + w / 0x400) as u16, (0xdc00 + w % 0x400) as u16]
    }
}

/// The UTF-16 encoding of `s`.
pub open spec fn encode_utf16(s: Seq<char>) -> Seq<u16>
    decreases s.len(),
{
    if s.len() == 0 {
        Seq::empty()
    } else {
        utf16_units(s[0]) + encode_utf16(s.drop_first())
    }
}

/// A high (leading) surrogate.
pub open spec fn is_high_surrogate(u: u16) -> bool {
    0xd800 <= u <= 0xdbff
}

/// A low (trailing) surrogate.
pub open spec fn is_low_surrogate(u: u16) -> bool {
    0xdc00 <= u <= 0xdfff
}

/// The scalar value that a surrogate pair stands for.
pub open spec fn pair_value(high: u16, low: u16) -> u32 {
    (0x10000 + (high - 0xd800) * 0x400 + (low - 0xdc00)) as u32
}

/// The characters that the UTF-16 code units `u` encode, or none when `u`
/// holds an unpaired surrogate (as `String::from_utf16` decides).
pub open spec fn decode_utf16(u: Seq<u16>) -> Option<Seq<char>>
    decreases u.len(),
{
    if u.len() == 0 {
        Some(Seq::empty())
    } else if !is_high_surrogate(u[0]) && !is_low_surrogate(u[0]) {
        match decode_utf16(u.drop_first()) {
            Some(r) => Some(seq![(u[0] as u32) as char] + r),
            None => None,
        }
    } else if is_high_surrogate(u[0]) && u.len() >= 2 && is_low_surrogate(u[1]) {
        match decode_utf16(u.subrange(2, u.len() as int)) {
            Some(r) => Some(seq![pair_value(u[0], u[1]) as char] + r),
            None => None,
        }
    } else {
        None
    }
}

/// `char::from_u32`: claimed to return the character whose scalar value is `v`
/// when `v` is a Unicode scalar value, and none otherwise.
#[verifier::external_body]
fn char_from_u32(v: u32) -> (r: Option<char>)
    ensures
        r is Some <==> is_scalar(v),
        r matches Some(c) ==> c as u32 == v,
{
    char::from_u32(v)
}

/// The UTF-16 code units of `c`.
fn units_of(c: char) -> (u: (u16, Option<u16>))
    ensures
        u.1 is None ==> utf16_units(c) == seq![u.0],
        u.1 matches Some(low) ==> utf16_units(c) == seq![u.0, low],
{
    let v = c as u32;
    if v <= 0xffff {
        (v as u16, None)
    } else {
        proof {
            char_is_scalar(c);
        }
        let w = v - 0x10000;
        let high = (0xd800 + w / 0x400) as u16;
        let low = (0xdc00 + w % 0x400) as u16;
        (high, Some(low))
    }
}

/// UTF-16 encoding distributes over concatenation.
pub proof fn lemma_encode_utf16_concat(a: Seq<char>, b: Seq<char>)
    ensures
        encode_utf16(a + b) == encode_utf16(a) + encode_utf16(b),
    decreases a.len(),
{
    if a.len() == 0 {
        assert(a + b == b);
        assert(encode_utf16(a) + encode_utf16(b) =~= encode_utf16(b));
    } else {
        lemma_encode_utf16_concat(a.drop_first(), b);
        assert((a + b).drop_first() == a.drop_first() + b);
        assert((a + b)[0] == a[0]);
        assert(encode_utf16(a + b) =~= encode_utf16(a) + encode_utf16(b));
    }
}

/// The code units of `s` followed by a terminating zero unit, as the Windows
/// API expects a wide string.
pub fn wide_string(s: &str) -> (w: Vec<u16>)
    ensures
        w@ == encode_utf16(s@).push(0),
{
    let v = chars_of(s);
    let mut w: Vec<u16> = Vec::new();
    let mut i: usize = 0;
    proof {
        assert(v@.take(0) =~= Seq::<char>::empty());
    }
    while i < v.len()
        invariant
            v@ == s@,
            i <= v.len(),
            w@ == encode_utf16(v@.take(i as int)),
        decreases v.len() - i,
    {
        let (first, second) = units_of(v[i]);
        w.push(first);
        match second {
            Some(low) => w.push(low),
            None => {},
        }
        proof {
            let c = v@[i as int];
            assert(v@.take(i + 1) == v@.take(i as int) + seq![c]);
            lemma_encode_utf16_concat(v@.take(i as int), seq![c]);
            assert(seq![c].drop_first() =~= Seq::<char>::empty());
            assert(encode_utf16(Seq::<char>::empty()) =~= Seq::<u16>::empty());
            assert(seq![c][0] == c);
            assert(encode_utf16(seq![c]) =~= utf16_units(c));
            assert(w@ =~= encode_utf16(v@.take(i as int)) + utf16_units(c));
        }
        i = i + 1;
    }
    proof {
        assert(v@.take(i as int) == s@);
    }
    w.push(0);
    w
}

/// Decodes the code units `u`, as `String::from_utf16` does: none when `u`
/// holds an unpaired surrogate.
pub fn string_from_utf16(u: &[u16]) -> (r: Option<String>)
    ensures
        match decode_utf16(u@) {
            Some(t) => r matches Some(s) && s@ == t,
            None => r is None,
        },
{
    let n = u.len();
    let mut out = String::new();
    let mut i: usize = 0;
    proof {
        assert(u@.subrange(0, n as int) == u@);
        assert(forall|t: Seq<char>| out@ + t == t);
    }
    while i < n
        invariant
            n == u@.len(),
            i <= n,
            match decode_utf16(u@.subrange(i as int, n as int)) {
                Some(t) => decode_utf16(u@) == Some(out@ + t),
                None => decode_utf16(u@) is None,
            },
        decreases n - i,
    {
        let rest = Ghost(u@.subrange(i as int, n as int));
        let x = u[i];
        if x < 0xd800 || x > 0xdfff {
            let c = match char_from_u32(x as u32) {
                Some(c) => c,
                None => {
                    proof {
                        assert(false);
                    }
                    return None;
                },
            };
            proof {
                char_u32_cast(c, x as u32);
                assert(rest@.drop_first() == u@.subrange(i + 1, n as int));
                let tail = decode_utf16(rest@.drop_first());
                if let Some(t) = tail {
                    assert(out@ + (seq![c] + t) == out@.push(c) + t);
                }
            }
            push_char(&mut out, c);
            i = i + 1;
        } else if x <= 0xdbff && i + 1 < n && 0xdc00 <= u[i + 1] && u[i + 1] <= 0xdfff {
            let y = u[i + 1];
            let v: u32 = 0x10000 + ((x - 0xd800) as u32) * 0x400 + ((y - 0xdc00) as u32);
            let c = match char_from_u32(v) {
                Some(c) => c,
                None => {
                    proof {
                        assert(false);
                    }
                    return None;
                },
            };
            proof {
                char_u32_cast(c, v);
                assert(v == pair_value(x, y));
                assert(rest@.subrange(2, rest@.len() as int) == u@.subrange(i + 2, n as int));
                let tail = decode_utf16(rest@.subrange(2, rest@.len() as int));
                if let Some(t) = tail {
                    assert(out@ + (seq![c] + t) == out@.push(c) + t);
                }
            }
            push_char(&mut out, c);
            i = i + 2;
        } else {
            return None;
        }
    }
    proof {
        assert(u@.subrange(n as int, n as int) =~= Seq::<u16>::empty());
        assert(out@ + Seq::<char>::empty() == out@);
    }
    Some(out)
}

/// Decoding undoes encoding.
pub proof fn lemma_decode_encode_utf16(s: Seq<char>)
    ensures
        decode_utf16(encode_utf16(s)) == Some(s),
    decreases s.len(),
{
    if s.len() > 0 {
        let c = s[0];
        let v = c as u32;
        let rest = encode_utf16(s.drop_first());
        let e = encode_utf16(s);
        lemma_decode_encode_utf16(s.drop_first());
        char_is_scalar(c);
        assert(e == utf16_units(c) + rest);
        if v <= 0xffff {
            let x = v as u16;
            assert(x as u32 == v);
            assert(e[0] == x);
            assert(e.drop_first() == rest);
            char_u32_cast(c, v);
        } else {
            let w = v - 0x10000;
            let high = (0xd800 + w / 0x400) as u16;
            let low = (0xdc00 + w % 0x400) as u16;
            assert(w / 0x400 <= 0x3ff);
            assert(w % 0x400 <= 0x3ff);
            assert(e[0] == high);
            assert(e[1] == low);
            assert(e.subrange(2, e.len() as int) == rest);
            assert(pair_value(high, low) == v) by {
                assert(high - 0xd800 == w / 0x400);
                assert(low - 0xdc00 == w % 0x400);
                assert((w / 0x400) * 0x400 + w % 0x400 == w) by (nonlinear_arith);
            }
            char_u32_cast(c, v);
        }
        assert(seq![c] + s.drop_first() == s);
    } else {
        assert(encode_utf16(s) =~= Seq::<u16>::empty());
    }
}

/// The UTF-8 byte offset that the UTF-16 offset `target` maps to in `s`: the
/// byte offset of the first character at which at least `target` code units
/// precede it, or the length of `s` in bytes when there is none.
pub open spec fn utf8_offset_of_utf16(s: Seq<char>, target: int) -> int
    decreases s.len(),
{
    if s.len() == 0 || target <= 0 {
        0
    } else {
        utf8_width(s[0]) + utf8_offset_of_utf16(s.drop_first(), target - utf16_width(s[0]))
    }
}

/// Converts a UTF-16 code-unit offset into `s` into a UTF-8 byte offset (see
/// `utf8_offset_of_utf16`).
pub fn utf16_offset_to_utf8(s: &str, utf16_units: usize) -> (r: usize)
    requires
        encode_utf8(s@).len() <= usize::MAX,
    ensures
        r == utf8_offset_of_utf16(s@, utf16_units as int),
{
    let v = chars_of(s);
    let n = v.len();
    let mut units: usize = 0;
    let mut bytes: usize = 0;
    let mut i: usize = 0;
    proof {
        lemma_utf8_len(s@);
        assert(v@.subrange(0, n as int) == v@);
        lemma_width_sum(v@, 0);
        assert(v@.take(0).len() == 0);
    }
    while i < n
        invariant
            v@ == s@,
            n == v.len(),
            i <= n,
            bytes + rest_bytes(v@, i as int) <= usize::MAX,
            units <= bytes,
            utf8_offset_of_utf16(s@, utf16_units as int) == bytes + utf8_offset_of_utf16(
                v@.subrange(i as int, n as int),
                utf16_units - units,
            ),
        decreases n - i,
    {
        let ghost rest = v@.subrange(i as int, n as int);
        if units >= utf16_units {
            return bytes;
        }
        let c = v[i];
        proof {
            assert(rest[0] == c);
            assert(rest.drop_first() == v@.subrange(i + 1, n as int));
            lemma_width_sum(v@, i as int);
            assert(utf16_width(c) <= utf8_width(c));
            assert(rest_bytes(v@, i as int) == utf8_width(c) + rest_bytes(v@, i + 1));
        }
        units = units + len_utf16(c);
        bytes = bytes + len_utf8(c);
        i = i + 1;
    }
    proof {
        assert(v@.subrange(n as int, n as int).len() == 0);
    }
    bytes
}

/// Bytes of UTF-8 of the characters of `s` from index `i` on.
pub open spec fn rest_bytes(s: Seq<char>, i: int) -> nat
    decreases s.len() - i,
{
    if i >= s.len() || i < 0 {
        0
    } else {
        utf8_width(s[i]) + rest_bytes(s, i + 1)
    }
}

proof fn lemma_width_sum(s: Seq<char>, i: int)
    requires
        0 <= i <= s.len(),
    ensures
        crate::chars::utf8_len(s) == crate::chars::utf8_len(s.take(i)) + rest_bytes(s, i),
    decreases s.len() - i,
{
    if i < s.len() {
        lemma_width_sum(s, i + 1);
        assert(s.take(i + 1).drop_last() == s.take(i));
    } else {
        assert(s.take(i) == s);
    }
}

/// An offset that counts the UTF-16 code units before a character converts to
/// the UTF-8 byte offset of that same character.
pub proof fn lemma_offset_at_character(s: Seq<char>, i: int)
    requires
        0 <= i <= s.len(),
    ensures
        utf8_offset_of_utf16(s, utf16_len(s.take(i)) as int) == utf8_len(s.take(i)),
    decreases i,
{
    if i == 0 {
        assert(s.take(0).len() == 0);
    } else {
        let t = s.take(i);
        lemma_utf16_len_front(t);
        lemma_utf8_len_front(t);
        assert(t[0] == s[0]);
        assert(t.drop_first() == s.drop_first().take(i - 1));
        lemma_offset_at_character(s.drop_first(), i - 1);
    }
}

/// The UTF-16 encoding of `s` has `utf16_len(s)` code units.
pub proof fn lemma_encode_utf16_len(s: Seq<char>)
    ensures
        encode_utf16(s).len() == utf16_len(s),
    decreases s.len(),
{
    if s.len() > 0 {
        lemma_encode_utf16_len(s.drop_first());
        lemma_utf16_len_front(s);
    } else {
        assert(utf16_len(s) == 0);
    }
}

/// A range of code units that starts and ends at characters of `s` decodes to
/// exactly the characters between them: the Windows service's reports of
/// whole words come back as those words.
pub proof fn lemma_aligned_range_decodes(s: Seq<char>, i: int, j: int)
    requires
        0 <= i <= j <= s.len(),
    ensures
        decode_utf16(
            encode_utf16(s).subrange(utf16_len(s.take(i)) as int, utf16_len(s.take(j)) as int),
        ) == Some(s.subrange(i, j)),
{
    let x = s.take(i);
    let y = s.subrange(i, j);
    let z = s.subrange(j, s.len() as int);
    assert(s.take(j) == x + y);
    assert(s == (x + y) + z);
    lemma_encode_utf16_concat(x, y);
    lemma_encode_utf16_concat(x + y, z);
    lemma_encode_utf16_len(x);
    lemma_encode_utf16_len(x + y);
    let ex = encode_utf16(x);
    let ey = encode_utf16(y);
    let ez = encode_utf16(z);
    assert(encode_utf16(s) == ex + ey + ez);
    assert((ex + ey + ez).subrange(ex.len() as int, (ex.len() + ey.len()) as int) =~= ey);
    lemma_decode_encode_utf16(y);
}

/// The index of the character at which `utf8_offset_of_utf16(s, target)` stops.
pub open spec fn utf16_char_index(s: Seq<char>, target: int) -> int
    decreases s.len(),
{
    if s.len() == 0 || target <= 0 {
        0
    } else {
        1 + utf16_char_index(s.drop_first(), target - utf16_width(s[0]))
    }
}

/// A converted offset is the byte offset of a character.
proof fn lemma_offset_index(s: Seq<char>, t: int)
    ensures
        0 <= utf16_char_index(s, t) <= s.len(),
        utf8_offset_of_utf16(s, t) == utf8_len(s.take(utf16_char_index(s, t))),
    decreases s.len(),
{
    if s.len() == 0 || t <= 0 {
        assert(s.take(0).len() == 0);
    } else {
        let r = s.drop_first();
        let t2 = t - utf16_width(s[0]);
        lemma_offset_index(r, t2);
        let i = utf16_char_index(r, t2);
        let p = s.take(i + 1);
        assert(p[0] == s[0]);
        assert(p.drop_first() == r.take(i));
        lemma_utf8_len_front(p);
    }
}

/// The code units of one character: a single non-surrogate, or a high
/// surrogate followed by a low one.
proof fn lemma_units_shape(c: char)
    ensures
        utf16_units(c).len() == utf16_width(c),
        utf16_width(c) == 1 ==> !is_high_surrogate(utf16_units(c)[0]) && !is_low_surrogate(
            utf16_units(c)[0],
        ),
        utf16_width(c) == 2 ==> is_high_surrogate(utf16_units(c)[0]) && is_low_surrogate(
            utf16_units(c)[1],
        ),
{
    char_is_scalar(c);
    let v = c as u32;
    if v > 0xffff {
        let w = v - 0x10000;
        assert(w / 0x400 <= 0x3ff);
        assert(w % 0x400 <= 0x3ff);
    } else {
        assert((v as u16) as u32 == v);
    }
}

/// When the code units of a character followed by `rest` decode, so does `rest`.
proof fn lemma_decode_rest(c: char, rest: Seq<u16>)
    requires
        decode_utf16(utf16_units(c) + rest) is Some,
    ensures
        decode_utf16(rest) is Some,
{
    lemma_units_shape(c);
    let u = utf16_units(c) + rest;
    if utf16_width(c) == 1 {
        assert(u[0] == utf16_units(c)[0]);
        assert(u.drop_first() == rest);
    } else {
        assert(u[0] == utf16_units(c)[0]);
        assert(u[1] == utf16_units(c)[1]);
        assert(u.subrange(2, u.len() as int) == rest);
    }
}

/// A non-empty range of the code units of `s` that decodes starts and ends at
/// characters of `s`.
proof fn lemma_decodable_range_aligned(s: Seq<char>, a: int, b: int)
    requires
        0 <= a < b <= encode_utf16(s).len(),
        decode_utf16(encode_utf16(s).subrange(a, b)) is Some,
    ensures
        utf16_len(s.take(utf16_char_index(s, a))) == a,
        utf16_len(s.take(utf16_char_index(s, b))) == b,
        utf16_char_index(s, a) <= utf16_char_index(s, b),
    decreases s.len(),
{
    let e = encode_utf16(s);
    if s.len() == 0 {
        assert(e.len() == 0);
    } else {
        let c = s[0];
        let r = s.drop_first();
        let er = encode_utf16(r);
        let w = utf16_width(c) as int;
        lemma_units_shape(c);
        lemma_encode_utf16_len(r);
        lemma_encode_utf16_len(s);
        assert(e == utf16_units(c) + er);
        assert(e.len() == w + er.len());
        if a >= w {
            assert(e.subrange(a, b) =~= er.subrange(a - w, b - w));
            lemma_decodable_range_aligned(r, a - w, b - w);
            let i = utf16_char_index(r, a - w);
            let j = utf16_char_index(r, b - w);
            lemma_offset_index(r, a - w);
            lemma_offset_index(r, b - w);
            assert(s.take(i + 1).drop_first() == r.take(i));
            assert(s.take(i + 1)[0] == c);
            lemma_utf16_len_front(s.take(i + 1));
            assert(s.take(j + 1).drop_first() == r.take(j));
            assert(s.take(j + 1)[0] == c);
            lemma_utf16_len_front(s.take(j + 1));
        } else if a == 0 {
            assert(s.take(0).len() == 0);
            assert(utf16_len(s.take(0)) == 0);
            if b < w {
                assert(w == 2 && b == 1);
                let u = e.subrange(0, 1);
                assert(u[0] == utf16_units(c)[0]);
                assert(is_high_surrogate(u[0]) && !is_low_surrogate(u[0]));
                assert(decode_utf16(u) is None);
            } else {
                assert(e.subrange(0, b) =~= utf16_units(c) + er.subrange(0, b - w));
                lemma_decode_rest(c, er.subrange(0, b - w));
                let t = s.take(1);
                assert(t[0] == c);
                assert(t.drop_first().len() == 0);
                lemma_utf16_len_front(t);
                assert(utf16_len(t.drop_first()) == 0);
                if b == w {
                    assert(utf16_char_index(r, 0) == 0);
                } else {
                    lemma_decodable_range_aligned(r, 0, b - w);
                    let j = utf16_char_index(r, b - w);
                    lemma_offset_index(r, b - w);
                    assert(s.take(j + 1).drop_first() == r.take(j));
                    assert(s.take(j + 1)[0] == c);
                    lemma_utf16_len_front(s.take(j + 1));
                }
            }
        } else {
            assert(w == 2 && a == 1);
            let u = e.subrange(a, b);
            assert(u[0] == utf16_units(c)[1]);
            assert(is_low_surrogate(u[0]) && !is_high_surrogate(u[0]));
            assert(decode_utf16(u) is None);
        }
    }
}

/// A range of the code units of a text that decodes addresses the decoded
/// word in the text: the converted UTF-8 offsets lie on character boundaries
/// and `&text[start..end]` is the word. This is what the Windows service's
/// reports turn into.
pub proof fn lemma_decoded_range_addresses_word(s: Seq<char>, a: int, b: int)
    requires
        0 <= a <= b <= encode_utf16(s).len(),
        decode_utf16(encode_utf16(s).subrange(a, b)) is Some,
    ensures
        ({
            let word = decode_utf16(encode_utf16(s).subrange(a, b))->0;
            let x = utf8_offset_of_utf16(s, a);
            let y = utf8_offset_of_utf16(s, b);
            &&& 0 <= x <= y <= encode_utf8(s).len()
            &&& is_char_boundary(encode_utf8(s), x)
            &&& is_char_boundary(encode_utf8(s), y)
            &&& encode_utf8(s).subrange(x, y) == encode_utf8(word)
        }),
{
    let e = encode_utf16(s);
    if a == b {
        lemma_offset_index(s, a);
        let k = utf16_char_index(s, a);
        lemma_byte_range(s, k, k);
        assert(e.subrange(a, b).len() == 0);
        assert(decode_utf16(e.subrange(a, b)) == Some(Seq::<char>::empty()));
        assert(s.subrange(k, k) =~= Seq::<char>::empty());
    } else {
        lemma_decodable_range_aligned(s, a, b);
        let i = utf16_char_index(s, a);
        let j = utf16_char_index(s, b);
        lemma_offset_index(s, a);
        lemma_offset_index(s, b);
        lemma_aligned_range_decodes(s, i, j);
        lemma_offset_at_character(s, i);
        lemma_offset_at_character(s, j);
        lemma_byte_range(s, i, j);
    }
}

/// The spelling error that the Windows service reports as `length` code units
/// from code unit `start` of `wide`, the encoding of `text`: the decoded
/// word with its UTF-8 byte range in `text`; none when the code units do
/// not decode.
pub fn spelling_error_at(text: &str, wide: &Vec<u16>, start: usize, length: usize) -> (r:
    Option<SpellingError>)
    requires
        start + length <= wide.len(),
        encode_utf8(text@).len() <= usize::MAX,
    ensures
        match decode_utf16(wide@.subrange(start as int, start + length)) {
            Some(t) => r matches Some(e) && e.word() == t && e.first_byte()
                == utf8_offset_of_utf16(text@, start as int) && e.end_byte()
                == utf8_offset_of_utf16(text@, start + length),
            None => r is None,
        },
        wide@ == encode_utf16(text@).push(0) && start + length < wide.len() ==> (r matches Some(e)
            ==> addresses(text@, (e.first_byte(), e.end_byte(), e.word()))),
{
    proof {
        if wide@ == encode_utf16(text@).push(0) && start + length < wide.len() {
            let e16 = encode_utf16(text@);
            assert(wide@.subrange(start as int, start + length) == e16.subrange(
                start as int,
                start + length,
            ));
            if decode_utf16(e16.subrange(start as int, start + length)) is Some {
                lemma_decoded_range_addresses_word(text@, start as int, start + length);
            }
        }
    }
    let end = start + length;
    let units = vstd::slice::slice_subrange(wide.as_slice(), start, end);
    let word = match string_from_utf16(units) {
        Some(w) => w,
        None => return None,
    };
    let byte_start = utf16_offset_to_utf8(text, start);
    let byte_end = utf16_offset_to_utf8(text, end);
    Some(SpellingError::new(word, byte_start, byte_end))
}

} // verus!
