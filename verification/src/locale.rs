//! Locale names: `en_US`, `en-US`, ` EN_us ` all name the same locale, which
//! the Hunspell backend spells `en_US` and the BCP 47 backends `en-US`.
use vstd::prelude::*;
use crate::chars::{chars_of, is_white_space, push_char, white_space};
use crate::runs::{
    lemma_runs_all_kept, lemma_runs_append_piece,
    between, lemma_runs_are_maximal, lemma_runs_depend_on_kept, pieces_between, spans_between,
    split_between,
};

verus! {

/// Characters of `s` after its leading white space.
pub open spec fn trim_start(s: Seq<char>) -> Seq<char>
    decreases s.len(),
{
    if s.len() > 0 && white_space(s[0]) {
        trim_start(s.drop_first())
    } else {
        s
    }
}

/// Characters of `s` before its trailing white space.
pub open spec fn trim_end(s: Seq<char>) -> Seq<char>
    decreases s.len(),
{
    if s.len() > 0 && white_space(s.last()) {
        trim_end(s.drop_last())
    } else {
        s
    }
}

/// `s` without leading and trailing white space, as `str::trim` gives it.
pub open spec fn trim(s: Seq<char>) -> Seq<char> {
    trim_end(trim_start(s))
}

/// The non-empty fields of `s` between the separators `_` and `-`.
pub open spec fn fields(s: Seq<char>) -> Seq<Seq<char>> {
    pieces_between(s, '_', '-')
}

/// The lower-case mapping of `s` that `str::to_lowercase` computes from the
/// Unicode tables bundled with std.
pub uninterp spec fn lowercase(s: Seq<char>) -> Seq<char>;

/// The upper-case mapping of `s` that `str::to_uppercase` computes from the
/// Unicode tables bundled with std.
pub uninterp spec fn uppercase(s: Seq<char>) -> Seq<char>;

/// `str::to_lowercase`: claimed to return `lowercase(s@)`, a function of the
/// characters of `s` alone (the mapping does not depend on a locale).
#[verifier::external_body]
fn str_to_lowercase(s: &str) -> (r: String)
    ensures
        r@ == lowercase(s@),
{
    s.to_lowercase()
}

/// `str::to_uppercase`: claimed to return `uppercase(s@)`, a function of the
/// characters of `s` alone (the mapping does not depend on a locale).
#[verifier::external_body]
fn str_to_uppercase(s: &str) -> (r: String)
    ensures
        r@ == uppercase(s@),
{
    s.to_uppercase()
}

/// The fields with the language (first field) in lower case and the region
/// (second field) in upper case; further fields are kept as they are.
pub open spec fn cased(f: Seq<Seq<char>>) -> Seq<Seq<char>> {
    Seq::new(
        f.len(),
        |i: int|
            if i == 0 {
                lowercase(f[i])
            } else if i == 1 {
                uppercase(f[i])
            } else {
                f[i]
            },
    )
}

/// The parts joined with `sep` between consecutive parts.
pub open spec fn join(parts: Seq<Seq<char>>, sep: char) -> Seq<char>
    decreases parts.len(),
{
    if parts.len() == 0 {
        Seq::empty()
    } else if parts.len() == 1 {
        parts[0]
    } else {
        join(parts.drop_last(), sep).push(sep) + parts.last()
    }
}

/// The cased fields of a locale name.
pub open spec fn locale_parts(locale: Seq<char>) -> Seq<Seq<char>> {
    cased(fields(trim(locale)))
}

/// The Hunspell spelling of a locale name, such as `en_US`.
pub open spec fn hunspell_name(locale: Seq<char>) -> Seq<char> {
    join(locale_parts(locale), '_')
}

/// The BCP 47 spelling of a locale name, such as `en-US`.
pub open spec fn bcp47_name(locale: Seq<char>) -> Seq<char> {
    join(locale_parts(locale), '-')
}

/// The bounds `(a, b)` of `v` without its leading and trailing white space.
fn trim_bounds(v: &Vec<char>) -> (r: (usize, usize))
    ensures
        r.0 <= r.1 <= v.len(),
        v@.subrange(r.0 as int, r.1 as int) == trim(v@),
{
    let n = v.len();
    let mut a: usize = 0;
    proof {
        assert(v@.subrange(0, n as int) == v@);
    }
    while a < n && is_white_space(v[a])
        invariant
            a <= n == v.len(),
            trim_start(v@) == trim_start(v@.subrange(a as int, n as int)),
        decreases n - a,
    {
        proof {
            assert(v@.subrange(a as int, n as int).drop_first() == v@.subrange(a + 1, n as int));
        }
        a = a + 1;
    }
    proof {
        assert(trim_start(v@) == v@.subrange(a as int, n as int));
    }
    let mut b: usize = n;
    while b > a && is_white_space(v[b - 1])
        invariant
            a <= b <= n == v.len(),
            trim_start(v@) == v@.subrange(a as int, n as int),
            trim(v@) == trim_end(v@.subrange(a as int, b as int)),
        decreases b - a,
    {
        proof {
            assert(v@.subrange(a as int, b as int).drop_last() == v@.subrange(
                a as int,
                b - 1,
            ));
        }
        b = b - 1;
    }
    (a, b)
}

/// The parts joined with `sep`.
fn join_parts(parts: &Vec<String>, sep: char) -> (r: String)
    ensures
        r@ == join(parts@.map_values(|p: String| p@), sep),
{
    let ghost ps = parts@.map_values(|p: String| p@);
    let mut r = String::new();
    let mut i: usize = 0;
    while i < parts.len()
        invariant
            i <= parts.len(),
            ps == parts@.map_values(|p: String| p@),
            r@ == join(ps.take(i as int), sep),
        decreases parts.len() - i,
    {
        proof {
            assert(ps.take(i + 1).drop_last() == ps.take(i as int));
            assert(ps.take(i + 1).last() == parts[i as int]@);
            if i == 0 {
                assert(ps.take(0) =~= Seq::<Seq<char>>::empty());
            }
        }
        if i > 0 {
            push_char(&mut r, sep);
        }
        r.append(parts[i].as_str());
        i = i + 1;
    }
    proof {
        assert(ps.take(i as int) == ps);
    }
    r
}

/// Normalises a locale name (`en_US`, `en-US`, ` EN_us `, ...) into its Hunspell
/// spelling and its BCP 47 spelling.
///
/// Surrounding white space is dropped, the name is split at `_` and `-` into its
/// non-empty fields, the first field is put in lower case and the second in
/// upper case, and the fields are joined with `_` and with `-`.
pub fn normalize_locale(locale: &str) -> (r: (String, String))
    ensures
        r.0@ == hunspell_name(locale@),
        r.1@ == bcp47_name(locale@),
{
    let v = chars_of(locale);
    let (a, b) = trim_bounds(&v);
    let mut t: Vec<char> = Vec::new();
    let mut i = a;
    while i < b
        invariant
            a <= i <= b <= v.len(),
            t@ == v@.subrange(a as int, i as int),
        decreases b - i,
    {
        t.push(v[i]);
        i = i + 1;
    }
    let ghost f = fields(t@);
    let mut parts = split_between(&t, '_', '-');
    if parts.len() > 0 {
        let lang = str_to_lowercase(parts[0].as_str());
        parts.set(0, lang);
    }
    if parts.len() > 1 {
        let region = str_to_uppercase(parts[1].as_str());
        parts.set(1, region);
    }
    proof {
        assert(parts@.map_values(|p: String| p@) =~= cased(f));
    }
    let hunspell = join_parts(&parts, '_');
    let bcp47 = join_parts(&parts, '-');
    (hunspell, bcp47)
}

/// `s` with every `-` replaced by `_`.
pub open spec fn dashes_to_underscores(s: Seq<char>) -> Seq<char> {
    s.map_values(|c: char| if c == '-' { '_' } else { c })
}

proof fn lemma_trim_start_swap(s: Seq<char>)
    ensures
        trim_start(dashes_to_underscores(s)) == dashes_to_underscores(trim_start(s)),
    decreases s.len(),
{
    let d = dashes_to_underscores(s);
    if s.len() > 0 {
        assert(d.drop_first() == dashes_to_underscores(s.drop_first()));
        assert(white_space(d[0]) == white_space(s[0]));
        lemma_trim_start_swap(s.drop_first());
    }
}

proof fn lemma_trim_end_swap(s: Seq<char>)
    ensures
        trim_end(dashes_to_underscores(s)) == dashes_to_underscores(trim_end(s)),
    decreases s.len(),
{
    let d = dashes_to_underscores(s);
    if s.len() > 0 {
        assert(d.drop_last() == dashes_to_underscores(s.drop_last()));
        assert(white_space(d.last()) == white_space(s.last()));
        lemma_trim_end_swap(s.drop_last());
    }
}

proof fn lemma_fields_swap(t: Seq<char>)
    ensures
        fields(dashes_to_underscores(t)) == fields(t),
{
    let d = dashes_to_underscores(t);
    let keep = between('_', '-');
    assert forall|j: int| 0 <= j < d.len() implies keep(#[trigger] d[j]) == keep(t[j]) by {}
    lemma_runs_depend_on_kept(d, t, keep);
    lemma_runs_are_maximal(t, keep);
    let sp = spans_between(t, '_', '-');
    assert(spans_between(d, '_', '-') == sp);
    assert forall|k: int| 0 <= k < sp.len() implies #[trigger] d.subrange(sp[k].0, sp[k].1)
        == t.subrange(sp[k].0, sp[k].1) by {
        assert forall|j: int| 0 <= j < sp[k].1 - sp[k].0 implies d.subrange(sp[k].0, sp[k].1)[j]
            == t.subrange(sp[k].0, sp[k].1)[j] by {
            assert(keep(t[sp[k].0 + j]));
        }
        assert(d.subrange(sp[k].0, sp[k].1) =~= t.subrange(sp[k].0, sp[k].1));
    }
    assert(fields(d) =~= fields(t));
}

/// `-` and `_` are interchangeable in a locale name (`en_US` and `en-US` both
/// work): replacing every `-` by `_` changes neither normalised spelling.
pub proof fn lemma_separators_interchangeable(locale: Seq<char>)
    ensures
        hunspell_name(dashes_to_underscores(locale)) == hunspell_name(locale),
        bcp47_name(dashes_to_underscores(locale)) == bcp47_name(locale),
{
    lemma_trim_start_swap(locale);
    lemma_trim_end_swap(trim_start(locale));
    lemma_fields_swap(trim(locale));
}

/// A field as normalisation leaves it: non-empty and free of separators.
pub open spec fn clean_field(p: Seq<char>) -> bool {
    p.len() > 0 && forall|j: int| 0 <= j < p.len() ==> #[trigger] p[j] != '_' && p[j] != '-'
}

/// Splitting the clean fields joined with a separator gives the fields back.
proof fn lemma_fields_of_join(parts: Seq<Seq<char>>, sep: char)
    requires
        sep == '_' || sep == '-',
        forall|i: int| 0 <= i < parts.len() ==> clean_field(#[trigger] parts[i]),
    ensures
        fields(join(parts, sep)) == parts,
        spans_between(join(parts, sep), '_', '-').len() == parts.len(),
    decreases parts.len(),
{
    let keep = between('_', '-');
    let j = join(parts, sep);
    if parts.len() == 0 {
        assert(fields(j) =~= parts);
    } else if parts.len() == 1 {
        let p = parts[0];
        assert(clean_field(p));
        assert forall|i: int| 0 <= i < p.len() implies keep(#[trigger] p[i]) by {}
        lemma_runs_all_kept(p, keep);
        assert(p.subrange(0, p.len() as int) == p);
        assert(fields(j) =~= parts);
    } else {
        let q = parts.drop_last();
        let y = parts.last();
        assert forall|i: int| 0 <= i < q.len() implies clean_field(#[trigger] q[i]) by {
            assert(q[i] == parts[i]);
        }
        lemma_fields_of_join(q, sep);
        let x = join(q, sep);
        assert(j == x.push(sep) + y);
        assert(clean_field(parts[parts.len() - 1]));
        assert forall|i: int| 0 <= i < y.len() implies keep(#[trigger] y[i]) by {}
        lemma_runs_append_piece(x, sep, y, keep);
        let spx = spans_between(x, '_', '-');
        let sp = spans_between(j, '_', '-');
        assert(sp == spx.push(((x.len() + 1) as int, (x.len() + 1 + y.len()) as int)));
        lemma_runs_are_maximal(x, keep);
        assert forall|k: int| 0 <= k < parts.len() implies #[trigger] fields(j)[k] == parts[k] by {
            if k < q.len() {
                assert(sp[k] == spx[k]);
                assert(fields(x)[k] == q[k]);
                assert(j.subrange(sp[k].0, sp[k].1) =~= x.subrange(spx[k].0, spx[k].1));
            } else {
                assert(j.subrange(sp[k].0, sp[k].1) =~= y);
            }
        }
        assert(fields(j) =~= parts);
    }
}

/// The first character of a join is that of its first part; its last
/// character is that of its last part.
proof fn lemma_join_ends(parts: Seq<Seq<char>>, sep: char)
    requires
        parts.len() > 0,
        forall|i: int| 0 <= i < parts.len() ==> clean_field(#[trigger] parts[i]),
    ensures
        join(parts, sep).len() > 0,
        join(parts, sep)[0] == parts[0][0],
        join(parts, sep).last() == parts.last().last(),
    decreases parts.len(),
{
    assert(clean_field(parts[0]));
    assert(clean_field(parts[parts.len() - 1]));
    if parts.len() > 1 {
        let q = parts.drop_last();
        assert forall|i: int| 0 <= i < q.len() implies clean_field(#[trigger] q[i]) by {
            assert(q[i] == parts[i]);
        }
        lemma_join_ends(q, sep);
        assert(q[0] == parts[0]);
    }
}

/// Joining clean fields with `_` gives the join with `-` with its dashes
/// turned into underscores.
proof fn lemma_join_separators(parts: Seq<Seq<char>>)
    requires
        forall|i: int| 0 <= i < parts.len() ==> clean_field(#[trigger] parts[i]),
    ensures
        join(parts, '_') == dashes_to_underscores(join(parts, '-')),
    decreases parts.len(),
{
    if parts.len() == 1 {
        let p = parts[0];
        assert(clean_field(p));
        assert(dashes_to_underscores(p) =~= p);
    } else if parts.len() > 1 {
        let q = parts.drop_last();
        let y = parts.last();
        assert forall|i: int| 0 <= i < q.len() implies clean_field(#[trigger] q[i]) by {
            assert(q[i] == parts[i]);
        }
        lemma_join_separators(q);
        assert(clean_field(parts[parts.len() - 1]));
        assert(dashes_to_underscores(join(q, '-').push('-') + y) =~= dashes_to_underscores(
            join(q, '-'),
        ).push('_') + y);
    } else {
        assert(dashes_to_underscores(join(parts, '-')) =~= join(parts, '_'));
    }
}

/// The parts of a normalised name, read again, are the same parts.
proof fn lemma_parts_of_joined(locale: Seq<char>, sep: char)
    requires
        sep == '_' || sep == '-',
        forall|i: int|
            0 <= i < locale_parts(locale).len() ==> clean_field(#[trigger] locale_parts(locale)[i]),
        locale_parts(locale).len() > 0 ==> !white_space(locale_parts(locale)[0][0])
            && !white_space(locale_parts(locale).last().last()),
        locale_parts(locale).len() > 0 ==> lowercase(locale_parts(locale)[0]) == locale_parts(
            locale,
        )[0],
        locale_parts(locale).len() > 1 ==> uppercase(locale_parts(locale)[1]) == locale_parts(
            locale,
        )[1],
    ensures
        locale_parts(join(locale_parts(locale), sep)) == locale_parts(locale),
{
    let p = locale_parts(locale);
    let j = join(p, sep);
    if p.len() > 0 {
        lemma_join_ends(p, sep);
        assert(trim_start(j) == j);
        assert(trim_end(j) == j);
    } else {
        assert(j.len() == 0);
        assert(trim_start(j) == j);
        assert(trim_end(j) == j);
    }
    assert(trim(j) == j);
    lemma_fields_of_join(p, sep);
    assert(cased(p) =~= p);
}

/// Normalising a normalised name gives the same two spellings back, and the
/// Hunspell spelling is the BCP 47 one with `-` turned into `_`, whenever the
/// case mappings leave the fields non-empty, free of separators and of white
/// space at the ends, and leave the language and region as they are on a
/// second application (as they do for ASCII letters and digits).
pub proof fn lemma_normalize_idempotent(locale: Seq<char>)
    requires
        forall|i: int|
            0 <= i < locale_parts(locale).len() ==> clean_field(#[trigger] locale_parts(locale)[i]),
        locale_parts(locale).len() > 0 ==> !white_space(locale_parts(locale)[0][0])
            && !white_space(locale_parts(locale).last().last()),
        locale_parts(locale).len() > 0 ==> lowercase(locale_parts(locale)[0]) == locale_parts(
            locale,
        )[0],
        locale_parts(locale).len() > 1 ==> uppercase(locale_parts(locale)[1]) == locale_parts(
            locale,
        )[1],
    ensures
        hunspell_name(hunspell_name(locale)) == hunspell_name(locale),
        bcp47_name(hunspell_name(locale)) == bcp47_name(locale),
        hunspell_name(bcp47_name(locale)) == hunspell_name(locale),
        bcp47_name(bcp47_name(locale)) == bcp47_name(locale),
        hunspell_name(locale) == dashes_to_underscores(bcp47_name(locale)),
{
    lemma_parts_of_joined(locale, '_');
    lemma_parts_of_joined(locale, '-');
    lemma_join_separators(locale_parts(locale));
}

} // verus!
