//! Where the Hunspell backend looks for its dictionaries, and which locale it
//! tries first.
use vstd::prelude::*;
use crate::chars::{chars_of, push_char};
use crate::locale::{hunspell_name, normalize_locale};
use crate::runs::{pieces_between, split_between};

verus! {

/// The directories searched for Hunspell dictionaries, in order.
pub open spec fn dictionary_dirs() -> Seq<Seq<char>> {
    seq![
        "/usr/share/hunspell"@,
        "/usr/share/myspell/dicts"@,
        "/usr/share/myspell"@,
        "/usr/local/share/hunspell"@,
    ]
}

/// The locales tried, in order, when no locale was asked for or found.
pub open spec fn fallback_locales() -> Seq<Seq<char>> {
    seq!["en_US"@, "en_GB"@]
}

/// The number of dictionary directories.
pub const DICTIONARY_DIR_COUNT: usize = 4;

/// The `i`-th dictionary directory.
fn dictionary_dir(i: usize) -> (d: &'static str)
    requires
        i < DICTIONARY_DIR_COUNT,
    ensures
        d@ == dictionary_dirs()[i as int],
{
    if i == 0 {
        "/usr/share/hunspell"
    } else if i == 1 {
        "/usr/share/myspell/dicts"
    } else if i == 2 {
        "/usr/share/myspell"
    } else {
        "/usr/local/share/hunspell"
    }
}

/// The locales tried, in order, when no locale was asked for or found:
/// `en_US`, then `en_GB`.
pub fn fallback_locale_names() -> (v: Vec<String>)
    ensures
        v@.map_values(|s: String| s@) == fallback_locales(),
{
    let mut v: Vec<String> = Vec::new();
    v.push(String::from_str("en_US"));
    v.push(String::from_str("en_GB"));
    proof {
        assert(v@.map_values(|s: String| s@) =~= fallback_locales());
    }
    v
}

/// The path of the file `{locale}{ext}` in `dir`, as `Path::new(dir).join(..)`
/// forms it on Unix: a file name that starts with `/` is absolute and replaces
/// the directory; otherwise a `/` separates the two.
pub open spec fn dictionary_file(dir: Seq<char>, locale: Seq<char>, ext: Seq<char>) -> Seq<char> {
    let file = locale + ext;
    if file.len() > 0 && file[0] == '/' {
        file
    } else {
        dir.push('/') + file
    }
}

/// `dictionary_file`, computed.
fn dictionary_path(dir: &str, locale: &str, ext: &str) -> (p: String)
    requires
        ext@.len() > 0,
    ensures
        p@ == dictionary_file(dir@, locale@, ext@),
{
    let lv = chars_of(locale);
    let ev = chars_of(ext);
    let absolute = if lv.len() > 0 {
        lv[0] == '/'
    } else {
        ev[0] == '/'
    };
    let mut p = if absolute {
        String::new()
    } else {
        let mut d = String::from_str(dir);
        push_char(&mut d, '/');
        d
    };
    p.append(locale);
    p.append(ext);
    p
}

/// The directories that the `DICPATH` variable lists: its non-empty pieces
/// between colons, in order; none when it is unset.
pub open spec fn dicpath_dirs(dicpath: Option<Seq<char>>) -> Seq<Seq<char>> {
    match dicpath {
        Some(p) => pieces_between(p, ':', ':'),
        None => Seq::empty(),
    }
}

/// The directories searched for dictionaries, in order: those of `DICPATH`
/// first, then the built-in ones.
pub open spec fn search_dirs(dicpath: Option<Seq<char>>) -> Seq<Seq<char>> {
    dicpath_dirs(dicpath) + dictionary_dirs()
}

/// The `(.aff, .dic)` pair for a directory and a locale.
pub open spec fn dictionary_pair(dir: Seq<char>, locale: Seq<char>) -> (Seq<char>, Seq<char>) {
    (dictionary_file(dir, locale, ".aff"@), dictionary_file(dir, locale, ".dic"@))
}

/// The directories searched for dictionaries, in order: those that `DICPATH`
/// lists (colon-separated, empty pieces skipped), then the built-in ones.
pub fn search_directories(dicpath: &Option<String>) -> (v: Vec<String>)
    ensures
        v@.map_values(|s: String| s@) == search_dirs(option_chars(*dicpath)),
{
    let mut v: Vec<String> = match dicpath {
        Some(p) => {
            let chars = chars_of(p.as_str());
            split_between(&chars, ':', ':')
        },
        None => Vec::new(),
    };
    let ghost first = v@.map_values(|s: String| s@);
    proof {
        assert(first =~= dicpath_dirs(option_chars(*dicpath)));
    }
    let mut i: usize = 0;
    while i < DICTIONARY_DIR_COUNT
        invariant
            i <= DICTIONARY_DIR_COUNT,
            v@.map_values(|s: String| s@) == first + dictionary_dirs().take(i as int),
        decreases DICTIONARY_DIR_COUNT - i,
    {
        let d = dictionary_dir(i);
        let ds = String::from_str(d);
        let ghost old_v = v@;
        v.push(ds);
        proof {
            assert(v@ == old_v.push(ds));
            assert(dictionary_dirs().take(i + 1) =~= dictionary_dirs().take(i as int).push(d@));
            assert(v@.map_values(|s: String| s@) =~= old_v.map_values(|s: String| s@).push(ds@));
            assert(v@.map_values(|s: String| s@) =~= first + dictionary_dirs().take(i + 1));
        }
        i = i + 1;
    }
    proof {
        assert(dictionary_dirs().take(DICTIONARY_DIR_COUNT as int) =~= dictionary_dirs());
    }
    v
}

/// The candidate `(.aff, .dic)` file pairs for the given locales, in search
/// order: every locale in the first searched directory, then every locale in
/// the next. The directories listed by `DICPATH` (colon-separated) come first,
/// in order, then the built-in ones.
pub fn dictionary_candidates(dicpath: &Option<String>, locales: &Vec<String>) -> (c: Vec<
    (String, String),
>)
    ensures
        c.len() == search_dirs(option_chars(*dicpath)).len() * locales.len(),
        forall|d: int, l: int|
            0 <= d < search_dirs(option_chars(*dicpath)).len() && 0 <= l < locales.len() ==> {
                let pair = #[trigger] c@[d * locales.len() + l];
                (pair.0@, pair.1@) == dictionary_pair(
                    search_dirs(option_chars(*dicpath))[d],
                    locales@[l]@,
                )
            },
{
    let dirs = search_directories(dicpath);
    let ghost sd = search_dirs(option_chars(*dicpath));
    proof {
        assert(dirs@.len() == sd.len());
        assert forall|d: int| 0 <= d < dirs.len() implies #[trigger] dirs@[d]@ == sd[d] by {
            assert(dirs@.map_values(|s: String| s@)[d] == dirs@[d]@);
        }
    }
    let n = locales.len();
    let m = dirs.len();
    let mut c: Vec<(String, String)> = Vec::new();
    let mut d: usize = 0;
    while d < m
        invariant
            n == locales.len(),
            m == dirs.len() == sd.len(),
            forall|dd: int| 0 <= dd < m ==> #[trigger] dirs@[dd]@ == sd[dd],
            d <= m,
            c.len() == d * n,
            forall|dd: int, l: int|
                0 <= dd < d && 0 <= l < n ==> {
                    let pair = #[trigger] c@[dd * n + l];
                    (pair.0@, pair.1@) == dictionary_pair(sd[dd], locales@[l]@)
                },
        decreases m - d,
    {
        let dir = dirs[d].as_str();
        let mut l: usize = 0;
        while l < n
            invariant
                n == locales.len(),
                m == dirs.len() == sd.len(),
                d < m,
                dir@ == sd[d as int],
                l <= n,
                c.len() == d * n + l,
                forall|dd: int, ll: int|
                    0 <= dd < d && 0 <= ll < n ==> {
                        let pair = #[trigger] c@[dd * n + ll];
                        (pair.0@, pair.1@) == dictionary_pair(sd[dd], locales@[ll]@)
                    },
                forall|ll: int|
                    0 <= ll < l ==> {
                        let pair = #[trigger] c@[d * n + ll];
                        (pair.0@, pair.1@) == dictionary_pair(sd[d as int], locales@[ll]@)
                    },
            decreases n - l,
        {
            proof {
                reveal_strlit(".aff");
                reveal_strlit(".dic");
            }
            let aff = dictionary_path(dir, locales[l].as_str(), ".aff");
            let dic = dictionary_path(dir, locales[l].as_str(), ".dic");
            let ghost before = c@;
            proof {
                assert((d * n + l) + 1 <= (d + 1) * n) by (nonlinear_arith)
                    requires
                        l < n,
                ;
            }
            c.push((aff, dic));
            proof {
                assert forall|dd: int, ll: int| 0 <= dd < d && 0 <= ll < n implies #[trigger] c@[dd
                    * n + ll] == before[dd * n + ll] by {
                    assert(dd * n + ll < d * n) by (nonlinear_arith)
                        requires
                            dd < d,
                            ll < n,
                            0 <= ll,
                    ;
                }
            }
            l = l + 1;
        }
        proof {
            assert(d * n + n == (d + 1) * n) by (nonlinear_arith);
        }
        d = d + 1;
    }
    c
}

/// The index of the first candidate whose `.aff` and `.dic` files both exist,
/// given for each candidate whether its two files exist; none when no
/// candidate is complete.
pub fn first_complete(exists: &Vec<(bool, bool)>) -> (r: Option<usize>)
    ensures
        match r {
            Some(k) => k < exists.len() && exists@[k as int].0 && exists@[k as int].1 && forall|
                j: int,
            | 0 <= j < k ==> !(#[trigger] exists@[j].0 && exists@[j].1),
            None => forall|j: int| 0 <= j < exists.len() ==> !(#[trigger] exists@[j].0 && exists@[j].1),
        },
{
    let mut i: usize = 0;
    while i < exists.len()
        invariant
            i <= exists.len(),
            forall|j: int| 0 <= j < i ==> !(#[trigger] exists@[j].0 && exists@[j].1),
        decreases exists.len() - i,
    {
        if exists[i].0 && exists[i].1 {
            return Some(i);
        }
        i = i + 1;
    }
    None
}

/// The locale of candidate `k` among `dictionary_candidates(.., locales)` with
/// `count` locales: candidates cycle through the locales within each directory.
pub fn candidate_locale(k: usize, count: usize) -> (l: usize)
    requires
        count > 0,
    ensures
        l == k % count,
        l < count,
{
    k % count
}

/// The locale that a dictionary file name stands for: the stem of a
/// `{locale}.dic` name with a non-empty stem.
pub open spec fn dic_stem(name: Seq<char>) -> Option<Seq<char>> {
    let n = name.len() as int;
    if n > 4 && name[n - 4] == '.' && name[n - 3] == 'd' && name[n - 2] == 'i' && name[n - 1]
        == 'c' {
        Some(name.take(n - 4))
    } else {
        None
    }
}

/// The locales that the dictionary files `names` provide, in the order of
/// their first `.dic` file, each once.
pub open spec fn dictionary_locales(names: Seq<Seq<char>>) -> Seq<Seq<char>>
    decreases names.len(),
{
    if names.len() == 0 {
        Seq::empty()
    } else {
        let r = dictionary_locales(names.drop_last());
        match dic_stem(names.last()) {
            Some(t) => if r.contains(t) {
                r
            } else {
                r.push(t)
            },
            None => r,
        }
    }
}

/// A name has a stem exactly when it is a non-empty stem followed by `.dic`.
pub proof fn lemma_dic_stem_exactly(name: Seq<char>, t: Seq<char>)
    ensures
        dic_stem(name) == Some(t) <==> (t.len() > 0 && name == t + seq!['.', 'd', 'i', 'c']),
{
    let n = name.len() as int;
    if t.len() > 0 && name == t + seq!['.', 'd', 'i', 'c'] {
        assert(name[n - 4] == '.' && name[n - 3] == 'd' && name[n - 2] == 'i' && name[n - 1] == 'c');
        assert(name.take(n - 4) =~= t);
    }
    if dic_stem(name) == Some(t) {
        assert(name =~= t + seq!['.', 'd', 'i', 'c']);
    }
}

/// The listed locales are pairwise distinct, and they are exactly the stems of
/// the `.dic` names: a stem is listed once however many directories hold it.
pub proof fn lemma_dictionary_locales_distinct_stems(names: Seq<Seq<char>>)
    ensures
        forall|i: int, j: int|
            0 <= i < j < dictionary_locales(names).len() ==> #[trigger] dictionary_locales(
                names,
            )[i] != #[trigger] dictionary_locales(names)[j],
        forall|t: Seq<char>|
            dictionary_locales(names).contains(t) <==> exists|i: int|
                0 <= i < names.len() && #[trigger] dic_stem(names[i]) == Some(t),
    decreases names.len(),
{
    if names.len() > 0 {
        let init = names.drop_last();
        lemma_dictionary_locales_distinct_stems(init);
        let r0 = dictionary_locales(init);
        let r = dictionary_locales(names);
        let last = names.last();
        assert forall|t: Seq<char>|
            r.contains(t) <==> exists|i: int|
                0 <= i < names.len() && #[trigger] dic_stem(names[i]) == Some(t) by {
            if r.contains(t) {
                if r0.contains(t) {
                    let i = choose|i: int| 0 <= i < init.len() && #[trigger] dic_stem(init[i]) == Some(t);
                    assert(init[i] == names[i]);
                } else {
                    assert(dic_stem(names[names.len() - 1]) == Some(t));
                }
            }
            if exists|i: int| 0 <= i < names.len() && #[trigger] dic_stem(names[i]) == Some(t) {
                let i = choose|i: int| 0 <= i < names.len() && #[trigger] dic_stem(names[i]) == Some(t);
                if i < init.len() {
                    assert(init[i] == names[i]);
                    assert(r0.contains(t));
                    let x = choose|x: int| 0 <= x < r0.len() && r0[x] == t;
                    match dic_stem(last) {
                        Some(u) => {
                            if !r0.contains(u) {
                                assert(r == r0.push(u));
                                assert(r[x] == t);
                            }
                        },
                        None => {},
                    }
                } else {
                    match dic_stem(last) {
                        Some(u) => {
                            assert(u == t);
                            if !r0.contains(u) {
                                assert(r == r0.push(u));
                                assert(r[r0.len() as int] == t);
                            }
                        },
                        None => {},
                    }
                }
            }
        }
        match dic_stem(last) {
            Some(u) => {
                if !r0.contains(u) {
                    assert(r == r0.push(u));
                    assert forall|i: int, j: int| 0 <= i < j < r.len() implies #[trigger] r[i]
                        != #[trigger] r[j] by {
                        if j == r0.len() {
                            assert(r[i] == r0[i]);
                            if r[i] == r[j] {
                                assert(r0.contains(u));
                            }
                        } else {
                            assert(r[i] == r0[i] && r[j] == r0[j]);
                        }
                    }
                }
            },
            None => {},
        }
    }
}

/// One step of `lemma_dictionary_locales_first_appearance`: from the order of
/// the locales `r0` of all names but the last to that of `r`, which adds the
/// last name's locale when it is new.
proof fn lemma_first_appearance_step(
    names: Seq<Seq<char>>,
    r0: Seq<Seq<char>>,
    r: Seq<Seq<char>>,
    x: int,
    y: int,
    i: int,
)
    requires
        names.len() > 0,
        forall|a: int, b: int, k: int|
            0 <= a < b < r0.len() && 0 <= k < names.len() - 1 && #[trigger] dic_stem(names[k])
                == Some(#[trigger] r0[b]) ==> exists|h: int|
                0 <= h < k && #[trigger] dic_stem(names[h]) == Some(#[trigger] r0[a]),
        forall|a: int|
            0 <= a < r0.len() ==> exists|h: int|
                0 <= h < names.len() - 1 && #[trigger] dic_stem(names[h]) == Some(
                    #[trigger] r0[a],
                ),
        forall|k: int|
            0 <= k < names.len() - 1 && (#[trigger] dic_stem(names[k])) is Some ==> r0.contains(
                dic_stem(names[k])->0,
            ),
        r.len() == r0.len() || r.len() == r0.len() + 1,
        forall|a: int| 0 <= a < r0.len() ==> r[a] == r0[a],
        r.len() == r0.len() + 1 ==> dic_stem(names[names.len() - 1]) == Some(r[r0.len() as int])
            && !r0.contains(r[r0.len() as int]),
        0 <= x < y < r.len(),
        0 <= i < names.len(),
        dic_stem(names[i]) == Some(r[y]),
    ensures
        exists|h: int| 0 <= h < i && #[trigger] dic_stem(names[h]) == Some(r[x]),
{
    let n = names.len() - 1;
    assert(r[x] == r0[x]);
    let h0 = choose|h: int| 0 <= h < n && #[trigger] dic_stem(names[h]) == Some(r0[x]);
    if i == n {
        assert(dic_stem(names[h0]) == Some(r[x]));
    } else if y < r0.len() {
        assert(r[y] == r0[y]);
        assert(dic_stem(names[i]) == Some(r0[y]));
        let h = choose|h: int| 0 <= h < i && #[trigger] dic_stem(names[h]) == Some(r0[x]);
        assert(dic_stem(names[h]) == Some(r[x]));
    } else {
        // the new locale has no file among the earlier names
        assert(r0.contains(r[y]));
    }
}

/// The locales come in the order of their first `.dic` file: a locale listed
/// before another has a file ahead of every file of the other.
pub proof fn lemma_dictionary_locales_first_appearance(names: Seq<Seq<char>>)
    ensures
        forall|x: int, y: int, i: int|
            0 <= x < y < dictionary_locales(names).len() && 0 <= i < names.len() && #[trigger] dic_stem(
                names[i],
            ) == Some(#[trigger] dictionary_locales(names)[y]) ==> exists|h: int|
                0 <= h < i && #[trigger] dic_stem(names[h]) == Some(
                    #[trigger] dictionary_locales(names)[x],
                ),
    decreases names.len(),
{
    if names.len() > 0 {
        let init = names.drop_last();
        let n = names.len() - 1;
        lemma_dictionary_locales_first_appearance(init);
        lemma_dictionary_locales_distinct_stems(init);
        let r0 = dictionary_locales(init);
        let r = dictionary_locales(names);
        assert(init.len() == n);
        assert(forall|k: int| 0 <= k < n ==> #[trigger] init[k] == names[k]);
        assert(r.len() == r0.len() || r.len() == r0.len() + 1);
        assert(forall|a: int| 0 <= a < r0.len() ==> r[a] == r0[a]);
        assert(r.len() == r0.len() + 1 ==> dic_stem(names[n]) == Some(r[r0.len() as int])
            && !r0.contains(r[r0.len() as int]));
        assert forall|a: int|
            0 <= a < r0.len() implies exists|h: int|
            0 <= h < n && #[trigger] dic_stem(names[h]) == Some(#[trigger] r0[a]) by {
            assert(r0.contains(r0[a]));
            let h = choose|h: int| 0 <= h < init.len() && #[trigger] dic_stem(init[h]) == Some(r0[a]);
            assert(init[h] == names[h]);
        }
        assert forall|k: int|
            0 <= k < n && (#[trigger] dic_stem(names[k])) is Some implies r0.contains(
            dic_stem(names[k])->0,
        ) by {
            assert(init[k] == names[k]);
            assert(dic_stem(init[k]) == Some(dic_stem(names[k])->0));
        }
        assert forall|a: int, b: int, k: int|
            0 <= a < b < r0.len() && 0 <= k < n && #[trigger] dic_stem(names[k]) == Some(
                #[trigger] r0[b],
            ) implies exists|h: int|
            0 <= h < k && #[trigger] dic_stem(names[h]) == Some(#[trigger] r0[a]) by {
            assert(init[k] == names[k]);
            assert(dic_stem(init[k]) == Some(r0[b]));
            let h = choose|h: int| 0 <= h < k && #[trigger] dic_stem(init[h]) == Some(r0[a]);
            assert(init[h] == names[h]);
        }
        assert forall|x: int, y: int, i: int|
            0 <= x < y < r.len() && 0 <= i < names.len() && #[trigger] dic_stem(names[i]) == Some(
                #[trigger] r[y],
            ) implies exists|h: int|
            0 <= h < i && #[trigger] dic_stem(names[h]) == Some(#[trigger] r[x]) by {
            lemma_first_appearance_step(names, r0, r, x, y, i);
        }
    }
}

/// The stem of a `{locale}.dic` file name.
fn stem_of(name: &str) -> (r: Option<String>)
    ensures
        option_chars(r) == dic_stem(name@),
{
    let v = chars_of(name);
    let n = v.len();
    if n > 4 && v[n - 4] == '.' && v[n - 3] == 'd' && v[n - 2] == 'i' && v[n - 1] == 'c' {
        let mut t = String::new();
        let mut i: usize = 0;
        while i < n - 4
            invariant
                n == v.len(),
                n > 4,
                i <= n - 4,
                t@ == v@.take(i as int),
            decreases n - 4 - i,
        {
            push_char(&mut t, v[i]);
            proof {
                assert(v@.take(i + 1) == v@.take(i as int).push(v@[i as int]));
            }
            i = i + 1;
        }
        Some(t)
    } else {
        None
    }
}

/// What `dictionary_locales` promises, read over the strings themselves: the
/// locales are pairwise distinct, each is the stem of some name, and every
/// stem is listed.
proof fn lemma_locales_of_names(names: Seq<String>, r: Seq<String>)
    requires
        r.map_values(|s: String| s@) == dictionary_locales(names.map_values(|s: String| s@)),
    ensures
        forall|i: int, j: int| 0 <= i < j < r.len() ==> (#[trigger] r[i])@ != (#[trigger] r[j])@,
        forall|x: int|
            0 <= x < r.len() ==> exists|i: int|
                0 <= i < names.len() && #[trigger] dic_stem(names[i]@) == Some(
                    (#[trigger] r[x])@,
                ),
        forall|i: int|
            0 <= i < names.len() && (#[trigger] dic_stem(names[i]@)) is Some ==> exists|x: int|
                0 <= x < r.len() && (#[trigger] r[x])@ == dic_stem(names[i]@)->0,
{
    let ns = names.map_values(|s: String| s@);
    let rv = r.map_values(|s: String| s@);
    lemma_dictionary_locales_distinct_stems(ns);
    assert forall|i: int, j: int| 0 <= i < j < r.len() implies (#[trigger] r[i])@ != (
    #[trigger] r[j])@ by {
        assert(rv[i] == r[i]@ && rv[j] == r[j]@);
    }
    assert forall|x: int| 0 <= x < r.len() implies exists|i: int|
        0 <= i < names.len() && #[trigger] dic_stem(names[i]@) == Some(
            (#[trigger] r[x])@,
        ) by {
        let t = r[x]@;
        assert(rv[x] == t);
        assert(rv.contains(t));
        let k = choose|k: int| 0 <= k < ns.len() && #[trigger] dic_stem(ns[k]) == Some(t);
        assert(ns[k] == names[k]@);
    }
    assert forall|i: int|
        0 <= i < names.len() && (#[trigger] dic_stem(names[i]@)) is Some implies exists|x: int|
        0 <= x < r.len() && (#[trigger] r[x])@ == dic_stem(names[i]@)->0 by {
        let t = dic_stem(names[i]@)->0;
        assert(ns[i] == names[i]@);
        assert(dic_stem(ns[i]) == Some(t));
        assert(rv.contains(t));
        let x = choose|x: int| 0 <= x < rv.len() && rv[x] == t;
        assert(r[x]@ == t);
    }
}

/// The locales that the dictionary files `names` provide (names given in
/// search order, directory by directory): the stem of every `{locale}.dic`
/// name, in order of first appearance, each once.
pub fn available_dictionary_locales(names: &Vec<String>) -> (r: Vec<String>)
    ensures
        r@.map_values(|s: String| s@) == dictionary_locales(names@.map_values(|s: String| s@)),
        forall|i: int, j: int| 0 <= i < j < r.len() ==> (#[trigger] r@[i])@ != (#[trigger] r@[j])@,
        forall|x: int|
            0 <= x < r.len() ==> exists|i: int|
                0 <= i < names.len() && #[trigger] dic_stem(names@[i]@) == Some(
                    (#[trigger] r@[x])@,
                ),
        forall|i: int|
            0 <= i < names.len() && (#[trigger] dic_stem(names@[i]@)) is Some ==> exists|x: int|
                0 <= x < r.len() && (#[trigger] r@[x])@ == dic_stem(names@[i]@)->0,
{
    let ghost ns = names@.map_values(|s: String| s@);
    let mut r: Vec<String> = Vec::new();
    let mut i: usize = 0;
    while i < names.len()
        invariant
            i <= names.len(),
            ns == names@.map_values(|s: String| s@),
            r@.map_values(|s: String| s@) == dictionary_locales(ns.take(i as int)),
        decreases names.len() - i,
    {
        proof {
            assert(ns.take(i + 1).drop_last() == ns.take(i as int));
            assert(ns.take(i + 1).last() == names@[i as int]@);
        }
        match stem_of(names[i].as_str()) {
            Some(t) => {
                let ghost rv = r@.map_values(|s: String| s@);
                let mut seen = false;
                let mut j: usize = 0;
                while j < r.len()
                    invariant
                        j <= r.len(),
                        rv == r@.map_values(|s: String| s@),
                        seen <==> exists|x: int| 0 <= x < j && rv[x] == t@,
                    decreases r.len() - j,
                {
                    if r[j] == t {
                        seen = true;
                    }
                    proof {
                        assert(rv[j as int] == r@[j as int]@);
                    }
                    j = j + 1;
                }
                proof {
                    if seen {
                        let x = choose|x: int| 0 <= x < j && rv[x] == t@;
                        assert(rv.contains(t@));
                    } else {
                        assert forall|x: int| 0 <= x < rv.len() implies rv[x] != t@ by {}
                        assert(!rv.contains(t@));
                    }
                }
                if !seen {
                    r.push(t);
                    proof {
                        assert(r@.map_values(|s: String| s@) =~= rv.push(t@));
                    }
                }
            },
            None => {},
        }
        i = i + 1;
    }
    proof {
        assert(ns.take(i as int) == ns);
        lemma_locales_of_names(names@, r@);
    }
    r
}

/// `a` comes no later than `b` in the lexicographic order of characters. This
/// is the order of `String`'s `Ord`, which compares UTF-8 bytes: UTF-8 keeps
/// the order of code points.
pub open spec fn lex_le(a: Seq<char>, b: Seq<char>) -> bool
    decreases a.len(),
{
    if a.len() == 0 {
        true
    } else if b.len() == 0 {
        false
    } else if a[0] != b[0] {
        (a[0] as u32) < (b[0] as u32)
    } else {
        lex_le(a.drop_first(), b.drop_first())
    }
}

/// Any two names are ordered one way or the other.
pub proof fn lemma_lex_total(a: Seq<char>, b: Seq<char>)
    ensures
        lex_le(a, b) || lex_le(b, a),
    decreases a.len(),
{
    if a.len() > 0 && b.len() > 0 {
        if a[0] == b[0] {
            lemma_lex_total(a.drop_first(), b.drop_first());
        } else {
            vstd::utf8::char_u32_cast(a[0], a[0] as u32);
            vstd::utf8::char_u32_cast(b[0], b[0] as u32);
            assert((a[0] as u32) != (b[0] as u32));
        }
    }
}

/// The order is transitive.
pub proof fn lemma_lex_transitive(a: Seq<char>, b: Seq<char>, c: Seq<char>)
    requires
        lex_le(a, b),
        lex_le(b, c),
    ensures
        lex_le(a, c),
    decreases a.len(),
{
    if a.len() > 0 && a[0] == b[0] && b[0] == c[0] {
        lemma_lex_transitive(a.drop_first(), b.drop_first(), c.drop_first());
    }
}

/// The order is antisymmetric: names ordered both ways are equal.
pub proof fn lemma_lex_antisymmetric(a: Seq<char>, b: Seq<char>)
    requires
        lex_le(a, b),
        lex_le(b, a),
    ensures
        a == b,
    decreases a.len(),
{
    if a.len() == 0 {
        assert(b.len() == 0);
        assert(a =~= b);
    } else {
        lemma_lex_antisymmetric(a.drop_first(), b.drop_first());
        assert(a =~= seq![a[0]] + a.drop_first());
        assert(b =~= seq![b[0]] + b.drop_first());
    }
}

/// Decides `lex_le`.
fn lex_le_chars(a: &Vec<char>, b: &Vec<char>) -> (r: bool)
    ensures
        r == lex_le(a@, b@),
{
    let mut i: usize = 0;
    proof {
        assert(a@.skip(0) == a@);
        assert(b@.skip(0) == b@);
    }
    while i < a.len() && i < b.len() && a[i] == b[i]
        invariant
            i <= a.len(),
            i <= b.len(),
            lex_le(a@, b@) == lex_le(a@.skip(i as int), b@.skip(i as int)),
        decreases a.len() - i,
    {
        proof {
            assert(a@.skip(i as int).drop_first() == a@.skip(i + 1));
            assert(b@.skip(i as int).drop_first() == b@.skip(i + 1));
            assert(a@.skip(i as int)[0] == a@[i as int]);
            assert(b@.skip(i as int)[0] == b@[i as int]);
        }
        i = i + 1;
    }
    if i == a.len() {
        true
    } else if i == b.len() {
        false
    } else {
        proof {
            assert(a@.skip(i as int)[0] == a@[i as int]);
            assert(b@.skip(i as int)[0] == b@[i as int]);
        }
        (a[i] as u32) < (b[i] as u32)
    }
}

/// The names sorted in the order of `String`'s `Ord`: the same names, in
/// non-decreasing lexicographic order of their characters.
pub fn sorted_names(names: &Vec<String>) -> (r: Vec<String>)
    ensures
        r@.map_values(|s: String| s@).to_multiset() == names@.map_values(
            |s: String| s@,
        ).to_multiset(),
        forall|i: int, j: int|
            0 <= i < j < r.len() ==> lex_le(#[trigger] r@[i]@, #[trigger] r@[j]@),
{
    let mut r: Vec<String> = Vec::new();
    let mut keys: Vec<Vec<char>> = Vec::new();
    let ghost ns = names@.map_values(|s: String| s@);
    let mut n: usize = 0;
    proof {
        assert(r@.map_values(|s: String| s@) =~= ns.take(0));
    }
    while n < names.len()
        invariant
            n <= names.len(),
            ns == names@.map_values(|s: String| s@),
            keys.len() == r.len(),
            forall|i: int| 0 <= i < r.len() ==> #[trigger] keys@[i]@ == r@[i]@,
            r@.map_values(|s: String| s@).to_multiset() == ns.take(n as int).to_multiset(),
            forall|i: int, j: int|
                0 <= i < j < r.len() ==> lex_le(#[trigger] r@[i]@, #[trigger] r@[j]@),
        decreases names.len() - n,
    {
        let x = names[n].clone();
        let xk = chars_of(x.as_str());
        let mut p: usize = 0;
        while p < r.len() && lex_le_chars(&keys[p], &xk)
            invariant
                p <= r.len(),
                keys.len() == r.len(),
                xk@ == x@,
                forall|i: int| 0 <= i < r.len() ==> #[trigger] keys@[i]@ == r@[i]@,
                forall|q: int| 0 <= q < p ==> lex_le(#[trigger] r@[q]@, x@),
            decreases r.len() - p,
        {
            p = p + 1;
        }
        let ghost rv = r@;
        proof {
            if p < r.len() {
                assert(!lex_le(r@[p as int]@, x@));
                lemma_lex_total(r@[p as int]@, x@);
                assert forall|q: int| p <= q < r.len() implies lex_le(x@, #[trigger] r@[q]@) by {
                    if q > p {
                        lemma_lex_transitive(x@, r@[p as int]@, r@[q]@);
                    }
                }
            }
        }
        r.insert(p, x);
        keys.insert(p, xk);
        proof {
            assert(r@ == rv.insert(p as int, x));
            assert forall|i: int, j: int| 0 <= i < j < r.len() implies lex_le(
                #[trigger] r@[i]@,
                #[trigger] r@[j]@,
            ) by {
                if j < p {
                    assert(r@[i] == rv[i] && r@[j] == rv[j]);
                } else if j == p {
                    assert(r@[i] == rv[i]);
                } else if i == p {
                    assert(r@[j] == rv[j - 1]);
                } else if i < p {
                    assert(r@[i] == rv[i] && r@[j] == rv[j - 1]);
                    lemma_lex_transitive(rv[i]@, x@, rv[j - 1]@);
                } else {
                    assert(r@[i] == rv[i - 1] && r@[j] == rv[j - 1]);
                }
            }
            assert(r@.map_values(|s: String| s@) =~= rv.map_values(|s: String| s@).insert(
                p as int,
                x@,
            ));
            vstd::seq_lib::to_multiset_insert(rv.map_values(|s: String| s@), p as int, x@);
            assert(ns.take(n + 1) =~= ns.take(n as int).push(x@));
            vstd::seq_lib::to_multiset_build(ns.take(n as int), x@);
        }
        n = n + 1;
    }
    proof {
        assert(ns.take(n as int) =~= ns);
    }
    r
}

/// Whether `s` holds a NUL character, which a C string cannot carry.
pub fn has_nul(s: &str) -> (r: bool)
    ensures
        r == s@.contains('\0'),
{
    let v = chars_of(s);
    let mut i: usize = 0;
    while i < v.len()
        invariant
            v@ == s@,
            i <= v.len(),
            forall|j: int| 0 <= j < i ==> v@[j] != '\0',
        decreases v.len() - i,
    {
        if v[i] == '\0' {
            return true;
        }
        i = i + 1;
    }
    false
}

/// A locale variable counts when it is set to a non-empty value.
pub open spec fn is_set(v: Option<Seq<char>>) -> bool {
    v is Some && v->0.len() > 0
}

/// The language part of a POSIX locale value: what precedes its codeset
/// (`.UTF-8`) or modifier (`@euro`).
pub open spec fn language_part(v: Seq<char>) -> Seq<char>
    decreases v.len(),
{
    if v.len() == 0 || v[0] == '.' || v[0] == '@' {
        Seq::empty()
    } else {
        seq![v[0]] + language_part(v.drop_first())
    }
}

/// The language part of a value is its longest prefix without `.` and `@`.
pub proof fn lemma_language_part_is_prefix(v: Seq<char>)
    ensures
        language_part(v).len() <= v.len(),
        language_part(v) == v.take(language_part(v).len() as int),
        forall|j: int|
            0 <= j < language_part(v).len() ==> #[trigger] v[j] != '.' && v[j] != '@',
        language_part(v).len() < v.len() ==> (v[language_part(v).len() as int] == '.' || v[
            language_part(v).len() as int] == '@'),
    decreases v.len(),
{
    if v.len() > 0 && v[0] != '.' && v[0] != '@' {
        let r = v.drop_first();
        lemma_language_part_is_prefix(r);
        let p = language_part(r);
        assert(language_part(v) == seq![v[0]] + p);
        assert(v.take((p.len() + 1) as int) =~= seq![v[0]] + r.take(p.len() as int));
        assert forall|j: int| 0 <= j < language_part(v).len() implies #[trigger] v[j] != '.'
            && v[j] != '@' by {
            if j > 0 {
                assert(v[j] == r[j - 1]);
            }
        }
        if language_part(v).len() < v.len() {
            assert(v[(p.len() + 1) as int] == r[p.len() as int]);
        }
    } else {
        assert(v.take(0) =~= Seq::<char>::empty());
    }
}

/// The locale a variable names, when set: the Hunspell spelling of its language
/// part, if that is not empty.
pub open spec fn named_locale(v: Seq<char>) -> Option<Seq<char>> {
    if hunspell_name(language_part(v)).len() > 0 {
        Some(hunspell_name(language_part(v)))
    } else {
        None
    }
}

/// `LC_ALL` wins when it is set to a non-empty value; otherwise `LC_MESSAGES`
/// when it is; otherwise `LANG`. A variable that is unset and one set to the
/// empty value count alike.
pub proof fn lemma_environment_precedence(
    lc_all: Option<Seq<char>>,
    lc_messages: Option<Seq<char>>,
    lang: Option<Seq<char>>,
)
    ensures
        (lc_all is Some && lc_all->0.len() > 0) ==> environment_locale(lc_all, lc_messages, lang)
            == named_locale(lc_all->0),
        !(lc_all is Some && lc_all->0.len() > 0) && (lc_messages is Some && lc_messages->0.len()
            > 0) ==> environment_locale(lc_all, lc_messages, lang) == named_locale(
            lc_messages->0,
        ),
        !(lc_all is Some && lc_all->0.len() > 0) && !(lc_messages is Some && lc_messages->0.len()
            > 0) && (lang is Some && lang->0.len() > 0) ==> environment_locale(
            lc_all,
            lc_messages,
            lang,
        ) == named_locale(lang->0),
        !(lc_all is Some && lc_all->0.len() > 0) && !(lc_messages is Some && lc_messages->0.len()
            > 0) && !(lang is Some && lang->0.len() > 0) ==> environment_locale(
            lc_all,
            lc_messages,
            lang,
        ) is None,
        forall|other: Option<Seq<char>>|
            !(lc_all is Some && lc_all->0.len() > 0) && !(other is Some && other->0.len() > 0)
                ==> #[trigger] environment_locale(other, lc_messages, lang) == environment_locale(
                lc_all,
                lc_messages,
                lang,
            ),
{
}

/// The locale named by the environment: the first of `LC_ALL`, `LC_MESSAGES`
/// and `LANG` that is set, without codeset and modifier, in its Hunspell
/// spelling; none when that spelling is empty or no variable is set.
pub open spec fn environment_locale(
    lc_all: Option<Seq<char>>,
    lc_messages: Option<Seq<char>>,
    lang: Option<Seq<char>>,
) -> Option<Seq<char>> {
    let chosen = if is_set(lc_all) {
        lc_all
    } else if is_set(lc_messages) {
        lc_messages
    } else {
        lang
    };
    if is_set(chosen) && hunspell_name(language_part(chosen->0)).len() > 0 {
        Some(hunspell_name(language_part(chosen->0)))
    } else {
        None
    }
}

/// The characters of a string option.
pub open spec fn option_chars(o: Option<String>) -> Option<Seq<char>> {
    match o {
        Some(s) => Some(s@),
        None => None,
    }
}

/// The locale that the environment variables `LC_ALL`, `LC_MESSAGES` and `LANG`
/// name, in its Hunspell spelling (see `environment_locale`).
pub fn locale_from_environment(
    lc_all: &Option<String>,
    lc_messages: &Option<String>,
    lang: &Option<String>,
) -> (r: Option<String>)
    ensures
        option_chars(r) == environment_locale(
            option_chars(*lc_all),
            option_chars(*lc_messages),
            option_chars(*lang),
        ),
        is_set(option_chars(*lc_all)) ==> option_chars(r) == named_locale(lc_all->0@),
        !is_set(option_chars(*lc_all)) && is_set(option_chars(*lc_messages)) ==> option_chars(r)
            == named_locale(lc_messages->0@),
        !is_set(option_chars(*lc_all)) && !is_set(option_chars(*lc_messages)) && is_set(
            option_chars(*lang),
        ) ==> option_chars(r) == named_locale(lang->0@),
        !is_set(option_chars(*lc_all)) && !is_set(option_chars(*lc_messages)) && !is_set(
            option_chars(*lang),
        ) ==> r is None,
{
    proof {
        lemma_environment_precedence(
            option_chars(*lc_all),
            option_chars(*lc_messages),
            option_chars(*lang),
        );
    }
    let chosen = if set_value(lc_all) {
        lc_all
    } else if set_value(lc_messages) {
        lc_messages
    } else {
        lang
    };
    match chosen {
        Some(value) => {
            if value.as_str().is_empty() {
                return None;
            }
            let v = chars_of(value.as_str());
            let mut part = String::new();
            let mut i: usize = 0;
            proof {
                assert(v@.subrange(0, v.len() as int) == v@);
                assert(part@ + language_part(v@) =~= language_part(v@));
            }
            while i < v.len() && v[i] != '.' && v[i] != '@'
                invariant
                    v@ == value@,
                    i <= v.len(),
                    language_part(v@) == part@ + language_part(v@.subrange(i as int, v.len() as int)),
                decreases v.len() - i,
            {
                proof {
                    let rest = v@.subrange(i as int, v.len() as int);
                    assert(rest.drop_first() == v@.subrange(i + 1, v.len() as int));
                    assert(rest[0] == v@[i as int]);
                }
                push_char(&mut part, v[i]);
                i = i + 1;
            }
            proof {
                assert(v@.subrange(0, v.len() as int) == v@);
                let rest = v@.subrange(i as int, v.len() as int);
                if i < v.len() {
                    assert(rest[0] == v@[i as int]);
                }
                assert(language_part(rest) == Seq::<char>::empty());
                assert(part@ + Seq::<char>::empty() == part@);
            }
            let (name, _) = normalize_locale(part.as_str());
            if name.as_str().is_empty() {
                None
            } else {
                Some(name)
            }
        },
        None => None,
    }
}

/// Whether a locale variable is set to a non-empty value.
fn set_value(v: &Option<String>) -> (r: bool)
    ensures
        r == is_set(option_chars(*v)),
{
    match v {
        Some(s) => !s.as_str().is_empty(),
        None => false,
    }
}

} // verus!
