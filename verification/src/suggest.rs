//! Which of the backend's suggestions reach the caller.
use vstd::prelude::*;

verus! {

/// The most suggestions handed out for one word.
pub const MAX_SUGGESTIONS: usize = 10;

/// The present entries of `c`, in order.
pub open spec fn present(c: Seq<Option<String>>) -> Seq<Seq<char>>
    decreases c.len(),
{
    if c.len() == 0 {
        Seq::empty()
    } else {
        let r = present(c.drop_last());
        match c.last() {
            Some(s) => r.push(s@),
            None => r,
        }
    }
}

/// Whether an entry of the backend's list is present.
pub open spec fn is_present(o: Option<String>) -> bool {
    o is Some
}

/// The text of an entry.
pub open spec fn entry_text(o: Option<String>) -> Seq<char> {
    o->0@
}

/// The present entries are exactly the entries that are `Some`, in order and
/// with their text unchanged, whatever characters they hold.
pub proof fn lemma_present_is_some_entries(c: Seq<Option<String>>)
    ensures
        present(c) == c.filter(|o: Option<String>| is_present(o)).map_values(
            |o: Option<String>| entry_text(o),
        ),
    decreases c.len(),
{
    reveal_with_fuel(Seq::<_>::filter, 1);
    let f = |o: Option<String>| is_present(o);
    let g = |o: Option<String>| entry_text(o);
    if c.len() > 0 {
        lemma_present_is_some_entries(c.drop_last());
        let t = c.drop_last().filter(f);
        if f(c.last()) {
            assert(c.filter(f) == t.push(c.last()));
            assert(t.push(c.last()).map_values(g) =~= t.map_values(g).push(g(c.last())));
        } else {
            assert(c.filter(f) == t);
        }
    } else {
        assert(c.filter(f) =~= Seq::<Option<String>>::empty());
        assert(c.filter(f).map_values(g) =~= Seq::<Seq<char>>::empty());
    }
}

/// Never more present entries than entries.
pub proof fn lemma_present_len(c: Seq<Option<String>>)
    ensures
        present(c).len() <= c.len(),
    decreases c.len(),
{
    if c.len() > 0 {
        lemma_present_len(c.drop_last());
    }
}

/// How many entries of the backend's suggestion list are read, given the count
/// it reported and whether the list came back null: none for a non-positive
/// count or a null list, else the count capped at `MAX_SUGGESTIONS`.
pub fn entries_to_read(reported: i32, list_is_null: bool) -> (n: usize)
    ensures
        n == (if reported <= 0 || list_is_null {
            0
        } else if reported >= MAX_SUGGESTIONS {
            MAX_SUGGESTIONS as int
        } else {
            reported as int
        }),
{
    if reported <= 0 || list_is_null {
        0
    } else if reported >= 10 {
        MAX_SUGGESTIONS
    } else {
        reported as usize
    }
}

/// The suggestions for a word, from the entries of the backend's list in order
/// (`None` for an entry that is null or not UTF-8): the present entries among
/// the first `MAX_SUGGESTIONS`, so at most `MAX_SUGGESTIONS` of them.
pub fn select_suggestions(candidates: Vec<Option<String>>) -> (r: Vec<String>)
    ensures
        r@.map_values(|s: String| s@) == present(
            candidates@.take(
                if candidates.len() <= MAX_SUGGESTIONS {
                    candidates.len() as int
                } else {
                    MAX_SUGGESTIONS as int
                },
            ),
        ),
        r.len() <= MAX_SUGGESTIONS,
        r@.map_values(|s: String| s@) == candidates@.take(
            if candidates.len() <= MAX_SUGGESTIONS {
                candidates.len() as int
            } else {
                MAX_SUGGESTIONS as int
            },
        ).filter(|o: Option<String>| is_present(o)).map_values(|o: Option<String>| entry_text(o)),
{
    let take = if candidates.len() <= MAX_SUGGESTIONS {
        candidates.len()
    } else {
        MAX_SUGGESTIONS
    };
    let mut r: Vec<String> = Vec::new();
    let mut i: usize = 0;
    while i < take
        invariant
            take <= candidates.len(),
            take <= MAX_SUGGESTIONS,
            i <= take,
            r@.map_values(|s: String| s@) == present(candidates@.take(i as int)),
        decreases take - i,
    {
        proof {
            assert(candidates@.take(i + 1).drop_last() == candidates@.take(i as int));
            assert(candidates@.take(i + 1).last() == candidates@[i as int]);
        }
        match &candidates[i] {
            Some(s) => {
                r.push(s.clone());
                proof {
                    assert(r@.map_values(|s: String| s@) =~= present(candidates@.take(i as int)).push(
                        s@,
                    ));
                }
            },
            None => {},
        }
        i = i + 1;
    }
    proof {
        lemma_present_is_some_entries(candidates@.take(i as int));
        lemma_present_len(candidates@.take(i as int));
        assert(r@.map_values(|s: String| s@).len() == r.len());
    }
    r
}

/// Whether the backend's suggestion enumerator handed out an entry: it
/// fetched one and the entry is not null.
pub fn entry_fetched(fetched: u32, item_is_null: bool) -> (r: bool)
    ensures
        r == (fetched != 0 && !item_is_null),
{
    fetched != 0 && !item_is_null
}

/// Collects one entry handed out by the backend's suggestion enumerator
/// (`None` when it does not decode) and says whether to ask for another:
/// only while fewer than `MAX_SUGGESTIONS` are collected and the call that
/// fetched the entry did not fail.
pub fn take_entry(out: &mut Vec<String>, entry: Option<String>, call_failed: bool) -> (more: bool)
    requires
        old(out).len() < MAX_SUGGESTIONS,
    ensures
        final(out)@ == (match entry {
            Some(s) => old(out)@.push(s),
            None => old(out)@,
        }),
        final(out).len() <= MAX_SUGGESTIONS,
        more == (!call_failed && final(out).len() < MAX_SUGGESTIONS),
{
    match entry {
        Some(s) => out.push(s),
        None => {},
    }
    !call_failed && out.len() < MAX_SUGGESTIONS
}

} // verus!
