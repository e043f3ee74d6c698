//! Splitting a text into words with their UTF-8 byte ranges, and picking out
//! the misspelled ones.
use vstd::prelude::*;
use vstd::utf8::*;
use crate::chars::{alphanumeric, ascii_word_text, no_nul, lemma_utf8_len_front, lemma_encode_utf8_concat, lemma_utf8_width, utf8_width, chars_of, is_word_char, len_utf8, lemma_utf8_len, lemma_utf8_len_prefix, push_char, utf8_len, word_char};
use crate::runs::{lemma_runs_are_maximal, runs};
use crate::SpellingError;

verus! {

/// The character spans of the words of `s`: maximal runs of word characters.
pub open spec fn word_spans(s: Seq<char>) -> Seq<(int, int)> {
    runs(s, |c: char| word_char(c))
}

/// Byte offset, in the UTF-8 encoding of `s`, of the character at index `i`.
pub open spec fn byte_offset(s: Seq<char>, i: int) -> int {
    utf8_len(s.take(i)) as int
}

/// The words hold exactly the alphanumeric characters and apostrophes of the
/// text: every character inside a word is one, and every one lies inside a
/// word (so punctuation such as `?` never does).
pub proof fn lemma_words_hold_exactly_word_characters(s: Seq<char>)
    ensures
        forall|k: int, j: int|
            0 <= k < word_spans(s).len() && (#[trigger] word_spans(s)[k]).0 <= j < word_spans(
                s,
            )[k].1 ==> 0 <= j < s.len() && (alphanumeric(#[trigger] s[j]) || s[j] == '\''),
        forall|j: int|
            0 <= j < s.len() && (alphanumeric(#[trigger] s[j]) || s[j] == '\'') ==> exists|k: int|
                0 <= k < word_spans(s).len() && (#[trigger] word_spans(s)[k]).0 <= j
                    < word_spans(s)[k].1,
{
    let keep = |c: char| word_char(c);
    lemma_runs_are_maximal(s, keep);
    let sp = word_spans(s);
    assert(sp == runs(s, keep));
    assert forall|j: int|
        0 <= j < s.len() && (alphanumeric(#[trigger] s[j]) || s[j] == '\'') implies exists|k: int|
        0 <= k < word_spans(s).len() && (#[trigger] word_spans(s)[k]).0 <= j
            < word_spans(s)[k].1 by {
        assert(keep(s[j]));
        let k = choose|k: int| 0 <= k < sp.len() && (#[trigger] sp[k]).0 <= j < sp[k].1;
        assert(0 <= k < word_spans(s).len() && word_spans(s)[k].0 <= j < word_spans(s)[k].1);
    }
    assert forall|k: int, j: int|
        0 <= k < word_spans(s).len() && (#[trigger] word_spans(s)[k]).0 <= j < word_spans(
            s,
        )[k].1 implies 0 <= j < s.len() && (alphanumeric(#[trigger] s[j]) || s[j] == '\'') by {
        assert(keep(s[j]));
    }
}

/// `ws` lists the words of `s` in order, each as its UTF-8 byte range and its
/// text: what `words` returns.
pub open spec fn tokenizes(s: Seq<char>, ws: Seq<(usize, usize, String)>) -> bool {
    &&& ws.len() == word_spans(s).len()
    &&& forall|k: int|
        0 <= k < ws.len() ==> {
            let sp = #[trigger] word_spans(s)[k];
            &&& ws[k].0 == byte_offset(s, sp.0)
            &&& ws[k].1 == byte_offset(s, sp.1)
            &&& ws[k].2@ == s.subrange(sp.0, sp.1)
        }
}

/// The words of `text`, in order, each as its UTF-8 byte range and its text.
///
/// A word is a maximal run of alphanumeric characters and apostrophes.
pub fn words(text: &str) -> (ws: Vec<(usize, usize, String)>)
    requires
        encode_utf8(text@).len() <= usize::MAX,
    ensures
        tokenizes(text@, ws@),
        forall|k: int| 0 <= k < ws.len() ==> no_nul(#[trigger] ws@[k].2@),
        forall|k: int| 0 <= k < ws.len() ==> ascii_word_text(#[trigger] ws@[k].2@),
{
    let v = chars_of(text);
    let ghost s = text@;
    proof {
        lemma_utf8_len(s);
        assert(s.take(s.len() as int) == s);
    }
    let mut out: Vec<(usize, usize, String)> = Vec::new();
    let mut pos: usize = 0;
    let mut in_word = false;
    let mut start: usize = 0;
    let mut cur = String::new();
    let ghost mut start_idx: int = 0;
    let mut i: usize = 0;
    proof {
        assert(s.take(0) =~= Seq::<char>::empty());
    }
    while i < v.len()
        invariant
            v@ == s,
            s == text@,
            i <= v.len(),
            utf8_len(s) <= usize::MAX,
            pos == utf8_len(s.take(i as int)),
            in_word <==> (i > 0 && word_char(s[i - 1])),
            in_word ==> no_nul(cur@),
            forall|k: int| 0 <= k < out.len() ==> no_nul(#[trigger] out@[k].2@),
            in_word ==> ascii_word_text(cur@),
            forall|k: int| 0 <= k < out.len() ==> ascii_word_text(#[trigger] out@[k].2@),
            in_word ==> {
                let sp = word_spans(s.take(i as int));
                &&& sp.len() > 0
                &&& out.len() == sp.len() - 1
                &&& sp.last() == (start_idx, i as int)
                &&& 0 <= start_idx < i
                &&& start == utf8_len(s.take(start_idx))
                &&& cur@ == s.subrange(start_idx, i as int)
            },
            !in_word ==> out.len() == word_spans(s.take(i as int)).len(),
            forall|k: int|
                0 <= k < out.len() ==> {
                    let sp = #[trigger] word_spans(s.take(i as int))[k];
                    &&& out[k].0 == byte_offset(s, sp.0)
                    &&& out[k].1 == byte_offset(s, sp.1)
                    &&& out[k].2@ == s.subrange(sp.0, sp.1)
                },
        decreases v.len() - i,
    {
        let c = v[i];
        let ghost t = s.take(i as int);
        let ghost t1 = s.take(i + 1);
        proof {
            assert(t1.drop_last() == t);
            assert(t1.last() == c);
            lemma_utf8_len_prefix(s, i + 1, s.len() as int);
            assert(s.take(s.len() as int) == s);
        }
        let w = len_utf8(c);
        let ghost old_sp = word_spans(t);
        if is_word_char(c) {
            if !in_word {
                start = pos;
                cur = String::new();
                in_word = true;
                proof {
                    start_idx = i as int;
                }
            }
            push_char(&mut cur, c);
            proof {
                assert(cur@ =~= s.subrange(start_idx, i + 1));
            }
        } else if in_word {
            let piece = (start, pos, cur);
            cur = String::new();
            out.push(piece);
            in_word = false;
        }
        pos = pos + w;
        i = i + 1;
        proof {
            let sp = word_spans(t1);
            assert(sp == runs(t1, |c: char| word_char(c)));
            if i >= 2 {
                assert(t1[i - 2] == s[i - 2]);
            }
            assert forall|k: int| 0 <= k < out.len() implies {
                let sp1 = #[trigger] word_spans(s.take(i as int))[k];
                &&& out[k].0 == byte_offset(s, sp1.0)
                &&& out[k].1 == byte_offset(s, sp1.1)
                &&& out[k].2@ == s.subrange(sp1.0, sp1.1)
            } by {
                assert(s.take(i as int) == t1);
                if k < old_sp.len() - 1 || (k < old_sp.len() && !word_char(c)) {
                    assert(sp[k] == old_sp[k]);
                }
            }
        }
    }
    if in_word {
        let piece = (start, pos, cur);
        out.push(piece);
    }
    proof {
        assert(s.take(i as int) == s);
    }
    out
}

/// The offset of every character index is a character boundary of the
/// encoding.
proof fn lemma_offset_is_boundary(s: Seq<char>, a: int)
    requires
        0 <= a <= s.len(),
    ensures
        is_char_boundary(encode_utf8(s), byte_offset(s, a)),
    decreases a,
{
    let bytes = encode_utf8(s);
    encode_utf8_valid_utf8(s);
    if a == 0 {
        assert(s.take(0) =~= Seq::<char>::empty());
    } else {
        encode_utf8_first_scalar(s);
        lemma_utf8_width(s[0]);
        assert(pop_first_scalar(bytes) =~= encode_utf8(s.drop_first()));
        let t = s.drop_first();
        lemma_offset_is_boundary(t, a - 1);
        assert(s.take(a).drop_first() == t.take(a - 1));
        assert(s.take(a)[0] == s[0]);
        lemma_utf8_len_front(s.take(a));
        lemma_utf8_len(s);
        lemma_utf8_len_prefix(s, a, s.len() as int);
        assert(s.take(s.len() as int) == s);
        assert(byte_offset(s, a) > 0);
    }
}

/// `&text[start..end]` is the word: the UTF-8 bytes of `s` between the byte
/// offsets of characters `a` and `b` are exactly the encoding of the
/// characters between them, and both offsets lie on character boundaries.
pub proof fn lemma_byte_range(s: Seq<char>, a: int, b: int)
    requires
        0 <= a <= b <= s.len(),
    ensures
        encode_utf8(s).subrange(byte_offset(s, a), byte_offset(s, b)) == encode_utf8(
            s.subrange(a, b),
        ),
        is_char_boundary(encode_utf8(s), byte_offset(s, a)),
        is_char_boundary(encode_utf8(s), byte_offset(s, b)),
        byte_offset(s, a) <= byte_offset(s, b) <= encode_utf8(s).len(),
{
    let x = s.take(a);
    let y = s.subrange(a, b);
    let z = s.subrange(b, s.len() as int);
    assert(s.take(b) == x + y);
    assert(s == (x + y) + z);
    lemma_encode_utf8_concat(x, y);
    lemma_encode_utf8_concat(x + y, z);
    lemma_utf8_len(x);
    lemma_utf8_len(x + y);
    lemma_utf8_len(s);
    let ex = encode_utf8(x);
    let ey = encode_utf8(y);
    let ez = encode_utf8(z);
    assert(encode_utf8(s) == ex + ey + ez);
    assert((ex + ey + ez).subrange(ex.len() as int, (ex.len() + ey.len()) as int) =~= ey);
    lemma_offset_is_boundary(s, a);
    lemma_offset_is_boundary(s, b);
}

/// Every word is non-empty and its byte range addresses exactly that word in
/// the UTF-8 encoding of the text; the ranges come in order and do not overlap.
pub proof fn lemma_word_ranges(s: Seq<char>)
    ensures
        forall|k: int, l: int|
            0 <= k < l < word_spans(s).len() ==> byte_offset(s, (#[trigger] word_spans(s)[k]).1)
                <= byte_offset(s, (#[trigger] word_spans(s)[l]).0),
        forall|k: int|
            0 <= k < word_spans(s).len() ==> {
                let sp = #[trigger] word_spans(s)[k];
                &&& 0 <= sp.0 < sp.1 <= s.len()
                &&& encode_utf8(s).subrange(byte_offset(s, sp.0), byte_offset(s, sp.1))
                    == encode_utf8(s.subrange(sp.0, sp.1))
                &&& is_char_boundary(encode_utf8(s), byte_offset(s, sp.0))
                &&& is_char_boundary(encode_utf8(s), byte_offset(s, sp.1))
            },
{
    lemma_runs_are_maximal(s, |c: char| word_char(c));
    assert forall|k: int| 0 <= k < word_spans(s).len() implies {
        let sp = #[trigger] word_spans(s)[k];
        &&& 0 <= sp.0 < sp.1 <= s.len()
        &&& encode_utf8(s).subrange(byte_offset(s, sp.0), byte_offset(s, sp.1)) == encode_utf8(
            s.subrange(sp.0, sp.1),
        )
        &&& is_char_boundary(encode_utf8(s), byte_offset(s, sp.0))
        &&& is_char_boundary(encode_utf8(s), byte_offset(s, sp.1))
    } by {
        let sp = word_spans(s)[k];
        lemma_byte_range(s, sp.0, sp.1);
    }
    assert forall|k: int, l: int| 0 <= k < l < word_spans(s).len() implies byte_offset(
        s,
        (#[trigger] word_spans(s)[k]).1,
    ) <= byte_offset(s, (#[trigger] word_spans(s)[l]).0) by {
        lemma_utf8_len_prefix(s, word_spans(s)[k].1, word_spans(s)[l].0);
    }
}

/// The misspelled words among `ws`: those whose verdict is `Some(false)`, in
/// order, as (start, end, text).
pub open spec fn flagged(ws: Seq<(usize, usize, String)>, verdicts: Seq<Option<bool>>) -> Seq<
    (usize, usize, Seq<char>),
>
    decreases ws.len(),
{
    if ws.len() == 0 || verdicts.len() == 0 {
        Seq::empty()
    } else {
        let rest = flagged(ws.drop_last(), verdicts.drop_last());
        if verdicts.last() == Some(false) {
            rest.push((ws.last().0, ws.last().1, ws.last().2@))
        } else {
            rest
        }
    }
}

/// The spelling errors among the words `ws`. For each word, `verdicts` says
/// what the dictionary answered: `Some(true)` when it accepts the word,
/// `Some(false)` when it rejects it, `None` when the word could not be looked
/// up (such a word is skipped).
pub fn spelling_errors(ws: &Vec<(usize, usize, String)>, verdicts: &Vec<Option<bool>>) -> (errs:
    Vec<SpellingError>)
    requires
        ws.len() == verdicts.len(),
    ensures
        errs.len() == flagged(ws@, verdicts@).len(),
        forall|k: int|
            0 <= k < errs.len() ==> {
                let f = #[trigger] flagged(ws@, verdicts@)[k];
                &&& errs[k].first_byte() == f.0
                &&& errs[k].end_byte() == f.1
                &&& errs[k].word() == f.2
            },
{
    let mut errs: Vec<SpellingError> = Vec::new();
    let mut i: usize = 0;
    while i < ws.len()
        invariant
            i <= ws.len() == verdicts.len(),
            errs.len() == flagged(ws@.take(i as int), verdicts@.take(i as int)).len(),
            forall|k: int|
                0 <= k < errs.len() ==> {
                    let f = #[trigger] flagged(ws@.take(i as int), verdicts@.take(i as int))[k];
                    &&& errs[k].first_byte() == f.0
                    &&& errs[k].end_byte() == f.1
                    &&& errs[k].word() == f.2
                },
        decreases ws.len() - i,
    {
        proof {
            assert(ws@.take(i + 1).drop_last() == ws@.take(i as int));
            assert(verdicts@.take(i + 1).drop_last() == verdicts@.take(i as int));
        }
        if verdicts[i] == Some(false) {
            let w = &ws[i];
            let e = SpellingError::new(w.2.clone(), w.0, w.1);
            errs.push(e);
        }
        i = i + 1;
    }
    proof {
        assert(ws@.take(i as int) == ws@);
        assert(verdicts@.take(i as int) == verdicts@);
    }
    errs
}

/// The range `(f.0, f.1)` lies on character boundaries of the UTF-8 encoding
/// of `s`, and the bytes there encode `f.2`: `&text[f.0..f.1] == f.2`.
pub open spec fn addresses(s: Seq<char>, f: (usize, usize, Seq<char>)) -> bool {
    &&& f.0 <= f.1 <= encode_utf8(s).len()
    &&& is_char_boundary(encode_utf8(s), f.0 as int)
    &&& is_char_boundary(encode_utf8(s), f.1 as int)
    &&& encode_utf8(s).subrange(f.0 as int, f.1 as int) == encode_utf8(f.2)
}

/// A property of every word carries over to every flagged word.
proof fn lemma_flagged_keep(
    s: Seq<char>,
    ws: Seq<(usize, usize, String)>,
    verdicts: Seq<Option<bool>>,
)
    requires
        forall|j: int| 0 <= j < ws.len() ==> addresses(s, (#[trigger] ws[j].0, ws[j].1, ws[j].2@)),
    ensures
        forall|k: int|
            0 <= k < flagged(ws, verdicts).len() ==> addresses(s, #[trigger] flagged(ws, verdicts)[k]),
    decreases ws.len(),
{
    if ws.len() > 0 && verdicts.len() > 0 {
        let wt = ws.drop_last();
        let vt = verdicts.drop_last();
        assert forall|j: int| 0 <= j < wt.len() implies addresses(
            s,
            (#[trigger] wt[j].0, wt[j].1, wt[j].2@),
        ) by {
            assert(wt[j] == ws[j]);
        }
        lemma_flagged_keep(s, wt, vt);
        let f = flagged(ws, verdicts);
        let ft = flagged(wt, vt);
        let j = ws.len() - 1;
        assert(addresses(s, (ws[j].0, ws[j].1, ws[j].2@)));
        if verdicts.last() == Some(false) {
            assert(f == ft.push((ws.last().0, ws.last().1, ws.last().2@)));
        } else {
            assert(f == ft);
        }
        assert forall|k: int| 0 <= k < f.len() implies addresses(s, #[trigger] f[k]) by {
            if k < ft.len() {
                assert(f[k] == ft[k]);
            }
        }
    } else {
        assert(flagged(ws, verdicts).len() == 0);
    }
}

/// Every spelling error found among the words of a text addresses its word:
/// its byte range lies on character boundaries of the text and
/// `&text[start..end]` is the misspelled word.
pub proof fn lemma_errors_slice_to_words(
    s: Seq<char>,
    ws: Seq<(usize, usize, String)>,
    verdicts: Seq<Option<bool>>,
)
    requires
        tokenizes(s, ws),
    ensures
        forall|k: int|
            0 <= k < flagged(ws, verdicts).len() ==> addresses(s, #[trigger] flagged(ws, verdicts)[k]),
{
    lemma_word_ranges(s);
    assert forall|j: int| 0 <= j < ws.len() implies addresses(
        s,
        (#[trigger] ws[j].0, ws[j].1, ws[j].2@),
    ) by {
        let sp = word_spans(s)[j];
        lemma_byte_range(s, sp.0, sp.1);
    }
    lemma_flagged_keep(s, ws, verdicts);
}

/// The verdicts that a dictionary accepting exactly the words `accepts` gives
/// the words `ws`: none for a word holding NUL, which cannot be looked up.
pub open spec fn dictionary_verdicts(
    ws: Seq<(usize, usize, String)>,
    accepts: spec_fn(Seq<char>) -> bool,
) -> Seq<Option<bool>> {
    Seq::new(
        ws.len(),
        |k: int|
            if ws[k].2@.contains('\0') {
                None
            } else {
                Some(accepts(ws[k].2@))
            },
    )
}

/// The words as (start, end, text).
pub open spec fn word_views(ws: Seq<(usize, usize, String)>) -> Seq<(usize, usize, Seq<char>)> {
    ws.map_values(|w: (usize, usize, String)| (w.0, w.1, w.2@))
}

/// Whether a word is reported by a dictionary accepting `accepts`: it can be
/// looked up (holds no NUL) and is not accepted.
pub open spec fn is_reported(accepts: spec_fn(Seq<char>) -> bool) -> spec_fn(
    (usize, usize, Seq<char>),
) -> bool {
    |w: (usize, usize, Seq<char>)| !w.2.contains('\0') && !accepts(w.2)
}

/// Checking a text reports, in order, exactly the words that the dictionary
/// rejects (words holding NUL cannot be looked up and are not reported).
pub proof fn lemma_errors_are_rejected_words(
    ws: Seq<(usize, usize, String)>,
    accepts: spec_fn(Seq<char>) -> bool,
)
    ensures
        flagged(ws, dictionary_verdicts(ws, accepts)) == word_views(ws).filter(
            is_reported(accepts),
        ),
    decreases ws.len(),
{
    let pred = is_reported(accepts);
    reveal_with_fuel(Seq::<_>::filter, 1);
    if ws.len() > 0 {
        let wt = ws.drop_last();
        let v = dictionary_verdicts(ws, accepts);
        lemma_errors_are_rejected_words(wt, accepts);
        assert(v.drop_last() =~= dictionary_verdicts(wt, accepts));
        assert(word_views(ws).drop_last() =~= word_views(wt));
        let w = word_views(ws).last();
        assert(w == (ws.last().0, ws.last().1, ws.last().2@));
        assert(v.last() == (if ws.last().2@.contains('\0') {
            None
        } else {
            Some(accepts(ws.last().2@))
        }));
        assert(word_views(ws).filter(pred) == (if pred(w) {
            word_views(wt).filter(pred).push(w)
        } else {
            word_views(wt).filter(pred)
        }));
    } else {
        assert(word_views(ws).len() == 0);
    }
}

/// Whether a word is rejected by a dictionary accepting `accepts`.
pub open spec fn is_rejected(accepts: spec_fn(Seq<char>) -> bool) -> spec_fn(
    (usize, usize, Seq<char>),
) -> bool {
    |w: (usize, usize, Seq<char>)| !accepts(w.2)
}

/// Checking a text reports, in order, exactly the words of the text that the
/// dictionary rejects: no word that `words` yields holds NUL, so every word
/// is looked up.
pub proof fn lemma_errors_are_exactly_rejected_words(
    ws: Seq<(usize, usize, String)>,
    accepts: spec_fn(Seq<char>) -> bool,
)
    requires
        forall|k: int| 0 <= k < ws.len() ==> no_nul(#[trigger] ws[k].2@),
    ensures
        flagged(ws, dictionary_verdicts(ws, accepts)) == word_views(ws).filter(
            is_rejected(accepts),
        ),
    decreases ws.len(),
{
    let pred = is_rejected(accepts);
    reveal_with_fuel(Seq::<_>::filter, 1);
    if ws.len() > 0 {
        let wt = ws.drop_last();
        let v = dictionary_verdicts(ws, accepts);
        assert forall|k: int| 0 <= k < wt.len() implies no_nul(#[trigger] wt[k].2@) by {
            assert(wt[k] == ws[k]);
        }
        lemma_errors_are_exactly_rejected_words(wt, accepts);
        assert(v.drop_last() =~= dictionary_verdicts(wt, accepts));
        assert(word_views(ws).drop_last() =~= word_views(wt));
        let w = word_views(ws).last();
        assert(w == (ws.last().0, ws.last().1, ws.last().2@));
        assert(no_nul(ws[ws.len() - 1].2@));
        assert(!ws.last().2@.contains('\0'));
        assert(v.last() == Some(accepts(ws.last().2@)));
        assert(word_views(ws).filter(pred) == (if pred(w) {
            word_views(wt).filter(pred).push(w)
        } else {
            word_views(wt).filter(pred)
        }));
    } else {
        assert(word_views(ws).len() == 0);
    }
}

} // verus!
