//! Retention: which of a world's archives a pass removes.
//!
//! A pass lists the regular files of the output directory once. For each world
//! it takes the names that count as that world's archives (by substring, so a
//! world `Alpha` also counts the archives of `Alpha2`), orders them by their
//! text, and removes the earliest ones until `cap` are left. The order is that
//! of the text: as names embed `DD-MM-YYYY`, it is not the order of time across
//! months and years.

use vstd::prelude::*;
use crate::naming::is_archive_of;
use crate::naming::is_archive_of_chars;
use crate::text::chars_of;
use crate::text::lemma_lex_antisymmetric;
use crate::text::lemma_lex_total;
use crate::text::lemma_lex_transitive;
use crate::text::lex_le;
use crate::text::lex_lt;
use crate::text::lex_le_chars;

verus! {

broadcast use vstd::seq_lib::group_filter_ensures;

/// The texts of a sequence of strings.
pub open spec fn texts(v: Seq<String>) -> Seq<Seq<char>> {
    v.map_values(|s: String| s@)
}

/// Every name comes no later than any name after it.
pub open spec fn is_ordered(s: Seq<Seq<char>>) -> bool {
    forall|i: int, j: int| 0 <= i < j < s.len() ==> lex_le(#[trigger] s[i], #[trigger] s[j])
}

/// `s` with `x` placed before the first name that comes strictly after it.
pub open spec fn insert_ordered(s: Seq<Seq<char>>, x: Seq<char>) -> Seq<Seq<char>>
    decreases s.len(),
{
    if s.len() == 0 {
        seq![x]
    } else if !lex_le(s[0], x) {
        seq![x] + s
    } else {
        seq![s[0]] + insert_ordered(s.drop_first(), x)
    }
}

/// `s` in lexicographic order (equal names keep their order).
pub open spec fn ordered(s: Seq<Seq<char>>) -> Seq<Seq<char>>
    decreases s.len(),
{
    if s.len() == 0 {
        s
    } else {
        insert_ordered(ordered(s.drop_last()), s.last())
    }
}

/// The names in `names` that count as archives of `world`, in listing order.
pub open spec fn matching(names: Seq<Seq<char>>, world: Seq<char>) -> Seq<Seq<char>> {
    names.filter(|n: Seq<char>| is_archive_of(n, world))
}

/// How many of `count` archives go beyond `cap`.
pub open spec fn excess(count: nat, cap: nat) -> nat {
    if count > cap {
        (count - cap) as nat
    } else {
        0
    }
}

/// The archives of `world` that a pass over the listing `names` removes, in
/// the order of removal: the earliest in text order, all but `cap` of them.
pub open spec fn removal(names: Seq<Seq<char>>, world: Seq<char>, cap: nat) -> Seq<Seq<char>> {
    let m = matching(names, world);
    ordered(m).take(excess(m.len(), cap) as int)
}

/// Whether a pass over `names` for the worlds `worlds` removes `n`.
pub open spec fn pruned(
    names: Seq<Seq<char>>,
    worlds: Seq<Seq<char>>,
    cap: nat,
    n: Seq<char>,
) -> bool {
    exists|w: Seq<char>| #[trigger] worlds.contains(w) && removal(names, w, cap).contains(n)
}

/// The listing after a pass over every world, with every removal done.
pub open spec fn after_prune(names: Seq<Seq<char>>, worlds: Seq<Seq<char>>, cap: nat) -> Seq<
    Seq<char>,
> {
    names.filter(|n: Seq<char>| !pruned(names, worlds, cap, n))
}

proof fn lemma_insert_at(s: Seq<Seq<char>>, x: Seq<char>, p: int)
    requires
        0 <= p <= s.len(),
        forall|k: int| 0 <= k < p ==> lex_le(#[trigger] s[k], x),
        p < s.len() ==> !lex_le(s[p], x),
    ensures
        insert_ordered(s, x) == s.insert(p, x),
    decreases s.len(),
{
    if s.len() == 0 {
        assert(s.insert(p, x) =~= seq![x]);
    } else if p == 0 {
        assert(s.insert(p, x) =~= seq![x] + s);
    } else {
        let t = s.drop_first();
        assert forall|k: int| 0 <= k < p - 1 implies lex_le(#[trigger] t[k], x) by {
            assert(t[k] == s[k + 1]);
        }
        lemma_insert_at(t, x, p - 1);
        assert(s.insert(p, x) =~= seq![s[0]] + t.insert(p - 1, x));
    }
}

proof fn lemma_insert_contents(s: Seq<Seq<char>>, x: Seq<char>)
    ensures
        insert_ordered(s, x).len() == s.len() + 1,
        forall|y: Seq<char>| #[trigger]
            insert_ordered(s, x).contains(y) <==> (y == x || s.contains(y)),
        s.no_duplicates() && !s.contains(x) ==> insert_ordered(s, x).no_duplicates(),
        is_ordered(s) ==> is_ordered(insert_ordered(s, x)),
    decreases s.len(),
{
    let r = insert_ordered(s, x);
    if s.len() == 0 {
        assert(r =~= seq![x]);
        assert forall|y: Seq<char>| r.contains(y) <==> (y == x || s.contains(y)) by {
            if r.contains(y) {
                assert(r[0] == y);
            }
            if y == x {
                assert(r[0] == y);
            }
        }
    } else if !lex_le(s[0], x) {
        assert forall|y: Seq<char>| r.contains(y) <==> (y == x || s.contains(y)) by {
            if r.contains(y) {
                let i = choose|i: int| 0 <= i < r.len() && r[i] == y;
                if i > 0 {
                    assert(s[i - 1] == y);
                }
            }
            if y == x {
                assert(r[0] == y);
            }
            if s.contains(y) {
                let i = choose|i: int| 0 <= i < s.len() && s[i] == y;
                assert(r[i + 1] == y);
            }
        }
        if is_ordered(s) {
            assert forall|i: int, j: int| 0 <= i < j < r.len() implies lex_le(
                #[trigger] r[i],
                #[trigger] r[j],
            ) by {
                if i == 0 {
                    lemma_lex_total(s[0], x);
                    if j > 1 {
                        assert(lex_le(s[0], s[j - 1]));
                        lemma_lex_transitive(x, s[0], s[j - 1]);
                    }
                } else {
                    assert(r[i] == s[i - 1] && r[j] == s[j - 1]);
                }
            }
        }
    } else {
        let t = s.drop_first();
        lemma_insert_contents(t, x);
        let rt = insert_ordered(t, x);
        assert(r == seq![s[0]] + rt);
        assert forall|y: Seq<char>| r.contains(y) <==> (y == x || s.contains(y)) by {
            if r.contains(y) {
                let i = choose|i: int| 0 <= i < r.len() && r[i] == y;
                if i > 0 {
                    assert(rt[i - 1] == y);
                    assert(rt.contains(y));
                    if t.contains(y) {
                        let k = choose|k: int| 0 <= k < t.len() && t[k] == y;
                        assert(s[k + 1] == y);
                    }
                } else {
                    assert(s[0] == y);
                }
            }
            if y == x {
                assert(rt.contains(x));
                let k = choose|k: int| 0 <= k < rt.len() && rt[k] == x;
                assert(r[k + 1] == x);
            }
            if s.contains(y) {
                let i = choose|i: int| 0 <= i < s.len() && s[i] == y;
                if i == 0 {
                    assert(r[0] == y);
                } else {
                    assert(t[i - 1] == y);
                    assert(rt.contains(y));
                    let k = choose|k: int| 0 <= k < rt.len() && rt[k] == y;
                    assert(r[k + 1] == y);
                }
            }
        }
        if s.no_duplicates() && !s.contains(x) {
            assert(t.no_duplicates());
            assert(!t.contains(x)) by {
                if t.contains(x) {
                    let k = choose|k: int| 0 <= k < t.len() && t[k] == x;
                    assert(s[k + 1] == x);
                }
            }
            assert(!rt.contains(s[0])) by {
                if t.contains(s[0]) {
                    let k = choose|k: int| 0 <= k < t.len() && t[k] == s[0];
                    assert(s[k + 1] == s[0]);
                }
                assert(s[0] != x);
            }
            assert forall|i: int, j: int| 0 <= i < j < r.len() implies r[i] != r[j] by {
                if i == 0 {
                    assert(r[j] == rt[j - 1]);
                    assert(rt.contains(r[j]));
                } else {
                    assert(r[i] == rt[i - 1] && r[j] == rt[j - 1]);
                }
            }
        }
        if is_ordered(s) {
            assert(is_ordered(t)) by {
                assert forall|i: int, j: int| 0 <= i < j < t.len() implies lex_le(
                    #[trigger] t[i],
                    #[trigger] t[j],
                ) by {
                    assert(t[i] == s[i + 1] && t[j] == s[j + 1]);
                }
            }
            assert forall|i: int, j: int| 0 <= i < j < r.len() implies lex_le(
                #[trigger] r[i],
                #[trigger] r[j],
            ) by {
                if i == 0 {
                    let y = rt[j - 1];
                    assert(rt.contains(y));
                    if y != x {
                        let k = choose|k: int| 0 <= k < t.len() && t[k] == y;
                        assert(s[k + 1] == y);
                    }
                } else {
                    assert(r[i] == rt[i - 1] && r[j] == rt[j - 1]);
                }
            }
        }
    }
}

/// Ordering keeps the names, drops none and adds none, and puts them in order.
pub proof fn lemma_ordered(s: Seq<Seq<char>>)
    ensures
        ordered(s).len() == s.len(),
        forall|y: Seq<char>| #[trigger] ordered(s).contains(y) <==> s.contains(y),
        s.no_duplicates() ==> ordered(s).no_duplicates(),
        is_ordered(ordered(s)),
    decreases s.len(),
{
    if s.len() > 0 {
        let d = s.drop_last();
        lemma_ordered(d);
        lemma_insert_contents(ordered(d), s.last());
        assert forall|y: Seq<char>| #[trigger] ordered(s).contains(y) <==> s.contains(y) by {
            if d.contains(y) {
                let k = choose|k: int| 0 <= k < d.len() && d[k] == y;
                assert(s[k] == y);
            }
            if s.contains(y) && y != s.last() {
                let k = choose|k: int| 0 <= k < s.len() && s[k] == y;
                assert(d[k] == y);
            }
        }
        if s.no_duplicates() {
            assert(!d.contains(s.last())) by {
                if d.contains(s.last()) {
                    let k = choose|k: int| 0 <= k < d.len() && d[k] == s.last();
                    assert(s[k] == s[s.len() - 1]);
                }
            }
        }
    }
}

/// Places `x` into the ordered `v`, before the first name that comes strictly
/// after it.
fn insert_in_order(v: &mut Vec<String>, x: String)
    ensures
        texts(final(v)@) == insert_ordered(texts(old(v)@), x@),
{
    let xc = chars_of(x.as_str());
    let n = v.len();
    let mut p: usize = 0;
    while p < n && lex_le_chars(&chars_of(v[p].as_str()), &xc)
        invariant
            n == v@.len(),
            p <= n,
            xc@ == x@,
            forall|k: int| 0 <= k < p ==> lex_le(#[trigger] texts(v@)[k], x@),
        decreases n - p,
    {
        p = p + 1;
    }
    proof {
        lemma_insert_at(texts(v@), x@, p as int);
    }
    let ghost before = v@;
    v.insert(p, x);
    assert(texts(v@) =~= texts(before).insert(p as int, x@));
}

/// The names of `v` in lexicographic order, equal names in their order in `v`.
pub fn sort_names(v: &Vec<String>) -> (r: Vec<String>)
    ensures
        texts(r@) == ordered(texts(v@)),
{
    let mut r: Vec<String> = Vec::new();
    let mut i: usize = 0;
    while i < v.len()
        invariant
            i <= v@.len(),
            texts(r@) == ordered(texts(v@.take(i as int))),
        decreases v.len() - i,
    {
        assert(texts(v@.take(i + 1)).drop_last() =~= texts(v@.take(i as int)));
        insert_in_order(&mut r, v[i].clone());
        i = i + 1;
    }
    assert(v@.take(i as int) =~= v@);
    r
}

/// The names in `names` that count as archives of `world`, in listing order.
pub fn matching_archives(names: &Vec<String>, world: &str) -> (r: Vec<String>)
    ensures
        texts(r@) == matching(texts(names@), world@),
{
    let wc = chars_of(world);
    let mut r: Vec<String> = Vec::new();
    let mut i: usize = 0;
    while i < names.len()
        invariant
            i <= names@.len(),
            wc@ == world@,
            texts(r@) == matching(texts(names@.take(i as int)), world@),
        decreases names.len() - i,
    {
        let ghost pred = |n: Seq<char>| is_archive_of(n, world@);
        proof {
            assert(texts(names@.take(i + 1)) =~= texts(names@.take(i as int)).push(names@[i as int]@));
            texts(names@.take(i as int)).lemma_filter_push(names@[i as int]@, pred);
        }
        if is_archive_of_chars(&chars_of(names[i].as_str()), &wc) {
            r.push(names[i].clone());
            assert(texts(r@) =~= matching(texts(names@.take(i as int)), world@).push(names@[i as int]@));
        }
        i = i + 1;
    }
    assert(names@.take(i as int) =~= names@);
    r
}

/// The archives of `world` that a retention pass over the directory listing
/// `names` removes, in the order of removal: of the names that count as the
/// world's archives, all but `cap`, the earliest in text order first.
pub fn files_to_remove(names: &Vec<String>, world: &str, cap: usize) -> (r: Vec<String>)
    ensures
        texts(r@) == removal(texts(names@), world@, cap as nat),
{
    let m = matching_archives(names, world);
    let sorted = sort_names(&m);
    proof {
        lemma_ordered(texts(m@));
    }
    let mut r: Vec<String> = Vec::new();
    if m.len() <= cap {
        assert(texts(r@) =~= removal(texts(names@), world@, cap as nat));
        return r;
    }
    let count = m.len() - cap;
    let mut i: usize = 0;
    while i < count
        invariant
            count <= sorted@.len(),
            i <= count,
            texts(r@) =~= texts(sorted@).take(i as int),
        decreases count - i,
    {
        let ghost before = r@;
        r.push(sorted[i].clone());
        assert(texts(r@) =~= texts(before).push(texts(sorted@)[i as int]));
        i = i + 1;
    }
    r
}

proof fn lemma_filter_keeps_distinct(s: Seq<Seq<char>>, pred: spec_fn(Seq<char>) -> bool)
    requires
        s.no_duplicates(),
    ensures
        s.filter(pred).no_duplicates(),
    decreases s.len(),
{
    reveal(Seq::filter);
    if s.len() > 0 {
        let d = s.drop_last();
        assert(d.no_duplicates());
        lemma_filter_keeps_distinct(d, pred);
        if pred(s.last()) {
            let f = d.filter(pred);
            assert(!f.contains(s.last())) by {
                if f.contains(s.last()) {
                    d.lemma_filter_contains_rev(pred, s.last());
                    let k = choose|k: int| 0 <= k < d.len() && d[k] == s.last();
                    assert(s[k] == s[s.len() - 1]);
                }
            }
            assert forall|i: int, j: int|
                0 <= i < j < f.push(s.last()).len() implies f.push(s.last())[i] != f.push(
                s.last(),
            )[j] by {
                if j == f.len() {
                    assert(f.contains(f[i]));
                }
            }
        }
    }
}

proof fn lemma_filter_all(s: Seq<Seq<char>>, pred: spec_fn(Seq<char>) -> bool)
    requires
        forall|n: Seq<char>| #[trigger] s.contains(n) ==> pred(n),
    ensures
        s.filter(pred) == s,
    decreases s.len(),
{
    reveal(Seq::filter);
    if s.len() > 0 {
        let d = s.drop_last();
        assert forall|n: Seq<char>| #[trigger] d.contains(n) implies pred(n) by {
            let k = choose|k: int| 0 <= k < d.len() && d[k] == n;
            assert(s[k] == n);
            assert(s.contains(n));
        }
        lemma_filter_all(d, pred);
        assert(s.contains(s[s.len() - 1]));
        assert(d.push(s.last()) =~= s);
    }
}

/// Of the archives that a listing of distinct names holds for `world`, a
/// pass removes exactly `count - cap` (none when there are at most `cap`),
/// in text order, and each removed name comes strictly before, in text order,
/// every archive of the world that is kept. Nothing else is removed.
pub proof fn lemma_removal_takes_earliest(names: Seq<Seq<char>>, world: Seq<char>, cap: nat)
    requires
        names.no_duplicates(),
    ensures
        removal(names, world, cap).len() == excess(matching(names, world).len(), cap),
        removal(names, world, cap).no_duplicates(),
        is_ordered(removal(names, world, cap)),
        forall|y: Seq<char>| #[trigger]
            removal(names, world, cap).contains(y) ==> matching(names, world).contains(y),
        forall|y: Seq<char>, x: Seq<char>|
            removal(names, world, cap).contains(y) && #[trigger] matching(names, world).contains(x)
                && !removal(names, world, cap).contains(x) ==> #[trigger] lex_lt(y, x),
{
    let m = matching(names, world);
    let s = ordered(m);
    let e = excess(m.len(), cap) as int;
    let r = removal(names, world, cap);
    lemma_filter_keeps_distinct(names, |n: Seq<char>| is_archive_of(n, world));
    lemma_ordered(m);
    assert(r == s.take(e));
    assert forall|y: Seq<char>| #[trigger] r.contains(y) implies m.contains(y) by {
        let i = choose|i: int| 0 <= i < r.len() && r[i] == y;
        assert(s[i] == y);
        assert(s.contains(y));
    }
    assert forall|y: Seq<char>, x: Seq<char>|
        r.contains(y) && #[trigger] m.contains(x) && !r.contains(x) implies #[trigger] lex_lt(
        y,
        x,
    ) by {
        let i = choose|i: int| 0 <= i < r.len() && r[i] == y;
        assert(s.contains(x));
        let j = choose|j: int| 0 <= j < s.len() && s[j] == x;
        if j < e {
            assert(r[j] == x);
        }
        assert(s[i] == y);
        assert(lex_le(s[i], s[j]));
        if lex_le(x, y) {
            lemma_lex_antisymmetric(x, y);
        }
    }
}

/// After a pass over every world of `worlds` on a listing of distinct names,
/// with every removal done, no world has more than `cap` archives left.
pub proof fn lemma_prune_respects_cap(names: Seq<Seq<char>>, worlds: Seq<Seq<char>>, cap: nat)
    requires
        names.no_duplicates(),
    ensures
        forall|w: Seq<char>| #[trigger]
            worlds.contains(w) ==> matching(after_prune(names, worlds, cap), w).len() <= cap,
{
    let a = after_prune(names, worlds, cap);
    lemma_filter_keeps_distinct(names, |n: Seq<char>| !pruned(names, worlds, cap, n));
    assert forall|w: Seq<char>| #[trigger]
        worlds.contains(w) implies matching(a, w).len() <= cap by {
        let m = matching(names, w);
        let r = removal(names, w, cap);
        let ma = matching(a, w);
        lemma_removal_takes_earliest(names, w, cap);
        lemma_filter_keeps_distinct(a, |n: Seq<char>| is_archive_of(n, w));
        lemma_filter_keeps_distinct(names, |n: Seq<char>| is_archive_of(n, w));
        assert(ma.to_set().subset_of(m.to_set().difference(r.to_set()))) by {
            assert forall|y: Seq<char>| ma.to_set().contains(y) implies m.to_set().difference(
                r.to_set(),
            ).contains(y) by {
                assert(ma.contains(y));
                a.lemma_filter_contains_rev(|n: Seq<char>| is_archive_of(n, w), y);
                names.lemma_filter_contains_rev(|n: Seq<char>| !pruned(names, worlds, cap, n), y);
                let k = choose|k: int| 0 <= k < names.len() && names[k] == y;
                names.lemma_filter_contains(|n: Seq<char>| is_archive_of(n, w), k);
                assert(!pruned(names, worlds, cap, y));
                assert(!r.contains(y));
            }
        }
        assert(r.to_set().subset_of(m.to_set()));
        assert(m.to_set().intersect(r.to_set()) =~= r.to_set());
        ma.unique_seq_to_set();
        m.unique_seq_to_set();
        r.unique_seq_to_set();
        vstd::seq_lib::seq_to_set_is_finite(m);
        vstd::seq_lib::seq_to_set_is_finite(r);
        vstd::set_lib::lemma_set_difference_len(m.to_set(), r.to_set());
        vstd::set_lib::lemma_len_subset(ma.to_set(), m.to_set().difference(r.to_set()));
    }
}

/// A second pass right after a first, with no archive added between them,
/// removes nothing: it finds no world over its cap, and leaves the listing as
/// it is.
pub proof fn lemma_prune_idempotent(names: Seq<Seq<char>>, worlds: Seq<Seq<char>>, cap: nat)
    requires
        names.no_duplicates(),
    ensures
        forall|w: Seq<char>| #[trigger]
            worlds.contains(w) ==> removal(after_prune(names, worlds, cap), w, cap).len() == 0,
        after_prune(after_prune(names, worlds, cap), worlds, cap) == after_prune(
            names,
            worlds,
            cap,
        ),
{
    let a = after_prune(names, worlds, cap);
    lemma_prune_respects_cap(names, worlds, cap);
    assert forall|w: Seq<char>| #[trigger] worlds.contains(w) implies removal(a, w, cap).len()
        == 0 by {
        assert(matching(a, w).len() <= cap);
    }
    assert forall|n: Seq<char>| #[trigger] a.contains(n) implies !pruned(a, worlds, cap, n) by {
        if pruned(a, worlds, cap, n) {
            let w = choose|w: Seq<char>| #[trigger]
                worlds.contains(w) && removal(a, w, cap).contains(n);
            assert(removal(a, w, cap).len() == 0);
        }
    }
    lemma_filter_all(a, |n: Seq<char>| !pruned(a, worlds, cap, n));
}

} // verus!
