//! Maximal runs of characters that satisfy a predicate: the shape shared by
//! words in a text and fields in a locale name.
use vstd::prelude::*;
use crate::chars::push_char;

verus! {

/// The maximal runs of consecutive characters of `s` that satisfy `keep`, in
/// order, as half-open spans `(start, end)` of character indices.
pub open spec fn runs(s: Seq<char>, keep: spec_fn(char) -> bool) -> Seq<(int, int)>
    decreases s.len(),
{
    if s.len() == 0 {
        Seq::empty()
    } else {
        let p = runs(s.drop_last(), keep);
        let n = s.len() as int;
        if !keep(s.last()) {
            p
        } else if n >= 2 && keep(s[n - 2]) {
            p.update(p.len() - 1, (p.last().0, n))
        } else {
            p.push((n - 1, n))
        }
    }
}

/// `spans` are, in order, exactly the maximal runs of characters of `s` that
/// satisfy `keep`.
pub open spec fn are_maximal_runs(
    s: Seq<char>,
    keep: spec_fn(char) -> bool,
    spans: Seq<(int, int)>,
) -> bool {
    // every span is a non-empty range of `s`
    &&& forall|k: int|
        0 <= k < spans.len() ==> 0 <= (#[trigger] spans[k]).0 < spans[k].1 <= s.len()
    // spans come in order and never touch
    &&& forall|k: int, l: int|
        0 <= k < l < spans.len() ==> (#[trigger] spans[k]).1 < (#[trigger] spans[l]).0
    // every character inside a span is kept
    &&& forall|k: int, j: int|
        0 <= k < spans.len() && (#[trigger] spans[k]).0 <= j < spans[k].1 ==> keep(
            #[trigger] s[j],
        )
    // a span cannot be extended to the left or to the right
    &&& forall|k: int|
        0 <= k < spans.len() && (#[trigger] spans[k]).0 > 0 ==> !keep(s[spans[k].0 - 1])
    &&& forall|k: int|
        0 <= k < spans.len() && (#[trigger] spans[k]).1 < s.len() ==> !keep(s[spans[k].1])
    // every kept character lies in some span
    &&& forall|j: int|
        0 <= j < s.len() && keep(#[trigger] s[j]) ==> exists|k: int|
            0 <= k < spans.len() && (#[trigger] spans[k]).0 <= j < spans[k].1
}

/// `runs` yields exactly the maximal runs of kept characters, and the last run
/// reaches the end of `s` exactly when the last character is kept.
pub proof fn lemma_runs_are_maximal(s: Seq<char>, keep: spec_fn(char) -> bool)
    ensures
        are_maximal_runs(s, keep, runs(s, keep)),
        (s.len() > 0 && keep(s.last())) <==> (runs(s, keep).len() > 0 && runs(s, keep).last().1
            == s.len()),
    decreases s.len(),
{
    if s.len() > 0 {
        let t = s.drop_last();
        let p = runs(t, keep);
        let n = s.len() as int;
        lemma_runs_are_maximal(t, keep);
        assert forall|j: int| 0 <= j < t.len() implies #[trigger] t[j] == s[j] by {}
        let r = runs(s, keep);
        if !keep(s.last()) {
            assert(r == p);
            assert forall|k: int| 0 <= k < r.len() && (#[trigger] r[k]).1 < s.len() implies !keep(
                s[r[k].1],
            ) by {
                if r[k].1 < t.len() {
                    assert(t[r[k].1] == s[r[k].1]);
                }
            }
            assert forall|j: int| 0 <= j < s.len() && keep(#[trigger] s[j]) implies exists|k: int|
                0 <= k < r.len() && (#[trigger] r[k]).0 <= j < r[k].1 by {
                assert(t[j] == s[j]);
            }
            assert forall|k: int, j: int|
                0 <= k < r.len() && (#[trigger] r[k]).0 <= j < r[k].1 implies keep(
                #[trigger] s[j],
            ) by {
                assert(t[j] == s[j]);
            }
            assert forall|k: int| 0 <= k < r.len() && (#[trigger] r[k]).0 > 0 implies !keep(
                s[r[k].0 - 1],
            ) by {
                assert(t[r[k].0 - 1] == s[r[k].0 - 1]);
            }
        } else if n >= 2 && keep(s[n - 2]) {
            assert(t.last() == s[n - 2]);
            let m = p.len() - 1;
            assert(r == p.update(m, (p[m].0, n)));
            assert forall|k: int, j: int|
                0 <= k < r.len() && (#[trigger] r[k]).0 <= j < r[k].1 implies keep(
                #[trigger] s[j],
            ) by {
                if j < t.len() {
                    assert(t[j] == s[j]);
                    if k == m {
                        assert(p[k].0 <= j < p[k].1);
                    }
                }
            }
            assert forall|k: int| 0 <= k < r.len() && (#[trigger] r[k]).0 > 0 implies !keep(
                s[r[k].0 - 1],
            ) by {
                assert(p[k].0 == r[k].0);
                assert(t[r[k].0 - 1] == s[r[k].0 - 1]);
            }
            assert forall|k: int| 0 <= k < r.len() && (#[trigger] r[k]).1 < s.len() implies !keep(
                s[r[k].1],
            ) by {
                assert(k != m);
                assert(p[k] == r[k]);
                assert(p[k].1 < p[m].0);
                assert(t[r[k].1] == s[r[k].1]);
            }
            assert forall|k: int, l: int| 0 <= k < l < r.len() implies (#[trigger] r[k]).1 < (
            #[trigger] r[l]).0 by {
                assert(p[k].1 < p[l].0);
            }
            assert forall|j: int| 0 <= j < s.len() && keep(#[trigger] s[j]) implies exists|k: int|
                0 <= k < r.len() && (#[trigger] r[k]).0 <= j < r[k].1 by {
                if j < t.len() {
                    assert(t[j] == s[j]);
                    let k = choose|k: int| 0 <= k < p.len() && (#[trigger] p[k]).0 <= j < p[k].1;
                    assert(r[k].0 <= j < r[k].1);
                } else {
                    assert(r[m].0 <= j < r[m].1);
                }
            }
        } else {
            assert(r == p.push((n - 1, n)));
            let m = p.len() as int;
            assert forall|k: int, j: int|
                0 <= k < r.len() && (#[trigger] r[k]).0 <= j < r[k].1 implies keep(
                #[trigger] s[j],
            ) by {
                if k < m {
                    assert(p[k] == r[k]);
                    assert(t[j] == s[j]);
                }
            }
            assert forall|k: int| 0 <= k < r.len() && (#[trigger] r[k]).0 > 0 implies !keep(
                s[r[k].0 - 1],
            ) by {
                if k < m {
                    assert(p[k] == r[k]);
                    assert(t[r[k].0 - 1] == s[r[k].0 - 1]);
                } else {
                    assert(t.last() == s[n - 2]);
                }
            }
            assert forall|k: int| 0 <= k < r.len() && (#[trigger] r[k]).1 < s.len() implies !keep(
                s[r[k].1],
            ) by {
                assert(k < m);
                assert(p[k] == r[k]);
                if r[k].1 < t.len() {
                    assert(t[r[k].1] == s[r[k].1]);
                } else {
                    assert(r[k].1 == t.len());
                    assert(t.last() == s[n - 2]);
                }
            }
            assert forall|k: int, l: int| 0 <= k < l < r.len() implies (#[trigger] r[k]).1 < (
            #[trigger] r[l]).0 by {
                if l < m {
                    assert(p[k].1 < p[l].0);
                } else {
                    assert(p[k] == r[k]);
                    if p[k].1 == t.len() {
                        assert(t.last() == s[n - 2]);
                    }
                }
            }
            assert forall|j: int| 0 <= j < s.len() && keep(#[trigger] s[j]) implies exists|k: int|
                0 <= k < r.len() && (#[trigger] r[k]).0 <= j < r[k].1 by {
                if j < t.len() {
                    assert(t[j] == s[j]);
                    let k = choose|k: int| 0 <= k < p.len() && (#[trigger] p[k]).0 <= j < p[k].1;
                    assert(r[k] == p[k]);
                    assert(r[k].0 <= j < r[k].1);
                } else {
                    assert(r[m].0 <= j < r[m].1);
                }
            }
        }
    }
}

/// The maximal runs are unique: any spans that are, in order, exactly the
/// maximal runs of kept characters of `s` are the ones `runs` yields.
pub proof fn lemma_maximal_runs_unique(
    s: Seq<char>,
    keep: spec_fn(char) -> bool,
    spans: Seq<(int, int)>,
)
    requires
        are_maximal_runs(s, keep, spans),
    ensures
        spans == runs(s, keep),
    decreases s.len(),
{
    let n = s.len() as int;
    if n == 0 {
        if spans.len() > 0 {
            assert(0 <= spans[0].0 < spans[0].1 <= s.len());
        }
        assert(spans =~= Seq::<(int, int)>::empty());
    } else {
        let t = s.drop_last();
        assert forall|j: int| 0 <= j < t.len() implies #[trigger] t[j] == s[j] by {}
        if !keep(s.last()) {
            assert forall|k: int| 0 <= k < spans.len() implies (#[trigger] spans[k]).1 <= t.len() by {
                if spans[k].1 == n {
                    assert(keep(s[n - 1]));
                }
            }
            assert(are_maximal_runs(t, keep, spans)) by {
                assert forall|k: int, j: int|
                    0 <= k < spans.len() && (#[trigger] spans[k]).0 <= j < spans[k].1 implies keep(
                    #[trigger] t[j],
                ) by {
                    assert(keep(s[j]));
                }
                assert forall|k: int| 0 <= k < spans.len() && (#[trigger] spans[k]).0 > 0 implies !keep(
                    t[spans[k].0 - 1],
                ) by {
                    assert(!keep(s[spans[k].0 - 1]));
                }
                assert forall|k: int| 0 <= k < spans.len() && (#[trigger] spans[k]).1 < t.len() implies !keep(
                    t[spans[k].1],
                ) by {
                    assert(!keep(s[spans[k].1]));
                }
                assert forall|j: int| 0 <= j < t.len() && keep(#[trigger] t[j]) implies exists|k: int|
                    0 <= k < spans.len() && (#[trigger] spans[k]).0 <= j < spans[k].1 by {
                    assert(keep(s[j]));
                }
            }
            lemma_maximal_runs_unique(t, keep, spans);
        } else {
            assert(keep(s[n - 1]));
            let k0 = choose|k: int| 0 <= k < spans.len() && (#[trigger] spans[k]).0 <= n - 1 < spans[k].1;
            let m = spans.len() - 1;
            assert(k0 == m) by {
                if k0 < m {
                    assert(spans[k0].1 < spans[m].0);
                    assert(spans[m].1 <= n);
                    assert(0 <= spans[m].0 < spans[m].1);
                }
            }
            let last = spans[m];
            assert(last.1 == n);
            if last.0 == n - 1 {
                let p = spans.drop_last();
                assert forall|k: int| 0 <= k < p.len() implies (#[trigger] p[k]).1 < n - 1 by {
                    assert(spans[k].1 < spans[m].0);
                }
                assert(are_maximal_runs(t, keep, p)) by {
                    assert forall|k: int| 0 <= k < p.len() implies 0 <= (#[trigger] p[k]).0 < p[k].1 <= t.len() by {
                        assert(p[k] == spans[k]);
                    }
                    assert forall|k: int, l: int| 0 <= k < l < p.len() implies (#[trigger] p[k]).1 < (
                    #[trigger] p[l]).0 by {
                        assert(spans[k].1 < spans[l].0);
                    }
                    assert forall|k: int, j: int|
                        0 <= k < p.len() && (#[trigger] p[k]).0 <= j < p[k].1 implies keep(
                        #[trigger] t[j],
                    ) by {
                        assert(spans[k] == p[k]);
                        assert(keep(s[j]));
                    }
                    assert forall|k: int| 0 <= k < p.len() && (#[trigger] p[k]).0 > 0 implies !keep(
                        t[p[k].0 - 1],
                    ) by {
                        assert(spans[k] == p[k]);
                        assert(!keep(s[spans[k].0 - 1]));
                    }
                    assert forall|k: int| 0 <= k < p.len() && (#[trigger] p[k]).1 < t.len() implies !keep(
                        t[p[k].1],
                    ) by {
                        assert(spans[k] == p[k]);
                        assert(!keep(s[spans[k].1]));
                    }
                    assert forall|j: int| 0 <= j < t.len() && keep(#[trigger] t[j]) implies exists|k: int|
                        0 <= k < p.len() && (#[trigger] p[k]).0 <= j < p[k].1 by {
                        assert(keep(s[j]));
                        let k = choose|k: int| 0 <= k < spans.len() && (#[trigger] spans[k]).0 <= j < spans[k].1;
                        assert(k != m);
                        assert(p[k] == spans[k]);
                    }
                }
                lemma_maximal_runs_unique(t, keep, p);
                if n >= 2 {
                    assert(!keep(s[n - 2]));
                }
                assert(spans =~= p.push((n - 1, n)));
            } else {
                let p = spans.update(m, (last.0, n - 1));
                assert(keep(s[n - 2]));
                assert(are_maximal_runs(t, keep, p)) by {
                    assert forall|k: int| 0 <= k < p.len() implies 0 <= (#[trigger] p[k]).0 < p[k].1 <= t.len() by {
                        if k < m {
                            assert(spans[k].1 < spans[m].0);
                        }
                    }
                    assert forall|k: int, l: int| 0 <= k < l < p.len() implies (#[trigger] p[k]).1 < (
                    #[trigger] p[l]).0 by {
                        assert(spans[k].1 < spans[l].0);
                    }
                    assert forall|k: int, j: int|
                        0 <= k < p.len() && (#[trigger] p[k]).0 <= j < p[k].1 implies keep(
                        #[trigger] t[j],
                    ) by {
                        assert(spans[k].0 <= j < spans[k].1);
                        assert(keep(s[j]));
                    }
                    assert forall|k: int| 0 <= k < p.len() && (#[trigger] p[k]).0 > 0 implies !keep(
                        t[p[k].0 - 1],
                    ) by {
                        assert(spans[k].0 == p[k].0);
                        assert(!keep(s[spans[k].0 - 1]));
                    }
                    assert forall|k: int| 0 <= k < p.len() && (#[trigger] p[k]).1 < t.len() implies !keep(
                        t[p[k].1],
                    ) by {
                        assert(k != m);
                        assert(spans[k] == p[k]);
                        assert(!keep(s[spans[k].1]));
                    }
                    assert forall|j: int| 0 <= j < t.len() && keep(#[trigger] t[j]) implies exists|k: int|
                        0 <= k < p.len() && (#[trigger] p[k]).0 <= j < p[k].1 by {
                        assert(keep(s[j]));
                        let k = choose|k: int| 0 <= k < spans.len() && (#[trigger] spans[k]).0 <= j < spans[k].1;
                        assert(p[k].0 <= j < p[k].1);
                    }
                }
                lemma_maximal_runs_unique(t, keep, p);
                assert(spans =~= p.update(m, (p[m].0, n)));
            }
        }
    }
}

/// Keeps every character but `a` and `b`.
pub open spec fn between(a: char, b: char) -> spec_fn(char) -> bool {
    |c: char| c != a && c != b
}

/// The spans of the non-empty pieces of `s` between the separators `a` and `b`.
pub open spec fn spans_between(s: Seq<char>, a: char, b: char) -> Seq<(int, int)> {
    runs(s, between(a, b))
}

/// The non-empty pieces of `s` between the separators `a` and `b`, in order.
pub open spec fn pieces_between(s: Seq<char>, a: char, b: char) -> Seq<Seq<char>> {
    let sp = spans_between(s, a, b);
    Seq::new(sp.len(), |k: int| s.subrange(sp[k].0, sp[k].1))
}

/// The non-empty pieces of `t` between the separators `a` and `b`, as strings.
pub fn split_between(t: &Vec<char>, a: char, b: char) -> (parts: Vec<String>)
    ensures
        parts.len() == pieces_between(t@, a, b).len(),
        forall|k: int| 0 <= k < parts.len() ==> #[trigger] parts[k]@ == pieces_between(t@, a, b)[k],
{
    let ghost s = t@;
    let mut out: Vec<String> = Vec::new();
    let mut in_field = false;
    let mut cur = String::new();
    let ghost mut start_idx: int = 0;
    let mut i: usize = 0;
    while i < t.len()
        invariant
            t@ == s,
            i <= t.len(),
            in_field <==> (i > 0 && (s[i - 1] != a && s[i - 1] != b)),
            in_field ==> {
                let sp = spans_between(s.take(i as int), a, b);
                &&& sp.len() > 0
                &&& out.len() == sp.len() - 1
                &&& sp.last() == (start_idx, i as int)
                &&& 0 <= start_idx < i
                &&& cur@ == s.subrange(start_idx, i as int)
            },
            !in_field ==> out.len() == spans_between(s.take(i as int), a, b).len(),
            forall|k: int|
                0 <= k < out.len() ==> {
                    let sp = #[trigger] spans_between(s.take(i as int), a, b)[k];
                    out[k]@ == s.subrange(sp.0, sp.1)
                },
        decreases t.len() - i,
    {
        let c = t[i];
        let ghost t1 = s.take(i + 1);
        let ghost old_sp = spans_between(s.take(i as int), a, b);
        proof {
            assert(t1.drop_last() == s.take(i as int));
            assert(t1.last() == c);
        }
        if c != a && c != b {
            if !in_field {
                cur = String::new();
                in_field = true;
                proof {
                    start_idx = i as int;
                }
            }
            push_char(&mut cur, c);
            proof {
                assert(cur@ =~= s.subrange(start_idx, i + 1));
            }
        } else if in_field {
            let piece = cur;
            cur = String::new();
            out.push(piece);
            in_field = false;
        }
        i = i + 1;
        proof {
            let sp = spans_between(t1, a, b);
            if i >= 2 {
                assert(t1[i - 2] == s[i - 2]);
            }
            assert forall|k: int| 0 <= k < out.len() implies {
                let sp1 = #[trigger] spans_between(s.take(i as int), a, b)[k];
                out[k]@ == s.subrange(sp1.0, sp1.1)
            } by {
                assert(s.take(i as int) == t1);
                if k < old_sp.len() - 1 || (k < old_sp.len() && !(c != a && c != b)) {
                    assert(sp[k] == old_sp[k]);
                }
            }
        }
    }
    if in_field {
        out.push(cur);
    }
    proof {
        assert(s.take(i as int) == s);
    }
    out
}

/// A non-empty sequence of kept characters is a single run.
pub proof fn lemma_runs_all_kept(y: Seq<char>, keep: spec_fn(char) -> bool)
    requires
        y.len() > 0,
        forall|j: int| 0 <= j < y.len() ==> keep(#[trigger] y[j]),
    ensures
        runs(y, keep) == seq![(0int, y.len() as int)],
    decreases y.len(),
{
    let n = y.len() as int;
    assert(keep(y[n - 1]));
    if n == 1 {
        assert(runs(y.drop_last(), keep) == Seq::<(int, int)>::empty());
        assert(Seq::<(int, int)>::empty().push((0int, 1int)) =~= seq![(0int, 1int)]);
    } else {
        let t = y.drop_last();
        assert forall|j: int| 0 <= j < t.len() implies keep(#[trigger] t[j]) by {
            assert(t[j] == y[j]);
        }
        lemma_runs_all_kept(t, keep);
        assert(keep(y[n - 2]));
        assert(seq![(0int, n - 1)].update(0, (0int, n)) =~= seq![(0int, n)]);
    }
}

/// Appending a separator and a non-empty piece of kept characters adds that
/// piece as one more run.
pub proof fn lemma_runs_append_piece(
    x: Seq<char>,
    sep: char,
    y: Seq<char>,
    keep: spec_fn(char) -> bool,
)
    requires
        !keep(sep),
        y.len() > 0,
        forall|j: int| 0 <= j < y.len() ==> keep(#[trigger] y[j]),
    ensures
        runs(x.push(sep) + y, keep) == runs(x, keep).push(
            ((x.len() + 1) as int, (x.len() + 1 + y.len()) as int),
        ),
    decreases y.len(),
{
    let z = x.push(sep) + y;
    let n = z.len() as int;
    assert(z.last() == y.last());
    assert(keep(y[y.len() - 1]));
    if y.len() == 1 {
        assert(z.drop_last() == x.push(sep));
        assert(x.push(sep).drop_last() == x);
        assert(x.push(sep).last() == sep);
        assert(runs(x.push(sep), keep) == runs(x, keep));
        assert(z[n - 2] == sep);
        assert(!keep(z[n - 2]));
        assert(runs(z, keep) == runs(z.drop_last(), keep).push((n - 1, n)));
    } else {
        let t = y.drop_last();
        assert forall|j: int| 0 <= j < t.len() implies keep(#[trigger] t[j]) by {
            assert(t[j] == y[j]);
        }
        lemma_runs_append_piece(x, sep, t, keep);
        assert(z.drop_last() == x.push(sep) + t);
        assert(z[n - 2] == y[y.len() - 2]);
        let p = runs(x, keep).push(((x.len() + 1) as int, (x.len() + 1 + t.len()) as int));
        assert(keep(z[n - 2]));
        assert(runs(z, keep) == p.update(p.len() - 1, (p.last().0, n)));
        assert(p.update(p.len() - 1, (p.last().0, n)) =~= runs(x, keep).push(
            ((x.len() + 1) as int, (x.len() + 1 + y.len()) as int),
        ));
    }
}

/// The runs of `s` depend only on which characters are kept.
pub proof fn lemma_runs_depend_on_kept(s1: Seq<char>, s2: Seq<char>, keep: spec_fn(char) -> bool)
    requires
        s1.len() == s2.len(),
        forall|j: int| 0 <= j < s1.len() ==> keep(#[trigger] s1[j]) == keep(s2[j]),
    ensures
        runs(s1, keep) == runs(s2, keep),
    decreases s1.len(),
{
    if s1.len() > 0 {
        let t1 = s1.drop_last();
        let t2 = s2.drop_last();
        assert forall|j: int| 0 <= j < t1.len() implies keep(#[trigger] t1[j]) == keep(t2[j]) by {
            assert(t1[j] == s1[j]);
        }
        lemma_runs_depend_on_kept(t1, t2, keep);
        let n = s1.len() as int;
        assert(keep(s1.last()) == keep(s2.last()));
        if n >= 2 {
            assert(keep(s1[n - 2]) == keep(s2[n - 2]));
        }
    }
}

} // verus!
