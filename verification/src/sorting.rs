//! Stable insertion order, the model of every stable sort in the library.

use vstd::prelude::*;

verus! {

/// Inserts `p` into `s` from the back: it moves in front of every trailing
/// element that it strictly precedes, and stays behind the first one it does not.
pub open spec fn insert_by<T>(s: Seq<T>, p: T, before: spec_fn(T, T) -> bool) -> Seq<T>
    decreases s.len(),
{
    if s.len() == 0 {
        seq![p]
    } else if before(p, s.last()) {
        insert_by(s.drop_last(), p, before).push(s.last())
    } else {
        s.push(p)
    }
}

/// The stable sort of `s` by the strict precedence `before`: each element is inserted,
/// in input order, behind every element that does not come strictly after it.
pub open spec fn sort_by<T>(s: Seq<T>, before: spec_fn(T, T) -> bool) -> Seq<T>
    decreases s.len(),
{
    if s.len() == 0 {
        s
    } else {
        insert_by(sort_by(s.drop_last(), before), s.last(), before)
    }
}

/// Inserting at the position found by scanning from the back is `insert_by`.
pub proof fn lemma_insert_at<T>(s: Seq<T>, p: T, before: spec_fn(T, T) -> bool, j: int)
    requires
        0 <= j <= s.len(),
        forall|k: int| j <= k < s.len() ==> #[trigger] before(p, s[k]),
        j > 0 ==> !before(p, s[j - 1]),
    ensures
        insert_by(s, p, before) == s.insert(j, p),
    decreases s.len(),
{
    if s.len() == 0 {
        assert(s.insert(j, p) =~= seq![p]);
    } else if j == s.len() {
        assert(s.insert(j, p) =~= s.push(p));
    } else {
        assert(before(p, s[s.len() - 1]));
        let d = s.drop_last();
        assert forall|k: int| j <= k < d.len() implies #[trigger] before(p, d[k]) by {
            assert(d[k] == s[k]);
        }
        if j > 0 {
            assert(d[j - 1] == s[j - 1]);
        }
        lemma_insert_at(d, p, before, j);
        assert(s.insert(j, p) =~= d.insert(j, p).push(s.last()));
    }
}

/// `sort_by` of a one-longer prefix inserts the next element.
pub proof fn lemma_sort_prefix_step<T>(s: Seq<T>, before: spec_fn(T, T) -> bool, i: int)
    requires
        0 <= i < s.len(),
    ensures
        sort_by(s.take(i + 1), before) == insert_by(sort_by(s.take(i), before), s[i], before),
{
    assert(s.take(i + 1).drop_last() =~= s.take(i));
}

pub proof fn lemma_insert_len<T>(s: Seq<T>, p: T, before: spec_fn(T, T) -> bool)
    ensures
        insert_by(s, p, before).len() == s.len() + 1,
    decreases s.len(),
{
    if s.len() > 0 && before(p, s.last()) {
        lemma_insert_len(s.drop_last(), p, before);
    }
}

pub proof fn lemma_sort_len<T>(s: Seq<T>, before: spec_fn(T, T) -> bool)
    ensures
        sort_by(s, before).len() == s.len(),
    decreases s.len(),
{
    if s.len() > 0 {
        lemma_sort_len(s.drop_last(), before);
        lemma_insert_len(sort_by(s.drop_last(), before), s.last(), before);
    }
}

/// Every element of `insert_by(s, p)` is `p` or an element of `s`.
pub proof fn lemma_insert_elements<T>(s: Seq<T>, p: T, before: spec_fn(T, T) -> bool)
    ensures
        forall|i: int|
            0 <= i < insert_by(s, p, before).len() ==> #[trigger] insert_by(s, p, before)[i] == p
                || s.contains(insert_by(s, p, before)[i]),
    decreases s.len(),
{
    lemma_insert_len(s, p, before);
    let r = insert_by(s, p, before);
    if s.len() > 0 && before(p, s.last()) {
        let d = s.drop_last();
        lemma_insert_elements(d, p, before);
        lemma_insert_len(d, p, before);
        let rd = insert_by(d, p, before);
        assert forall|i: int| 0 <= i < r.len() implies #[trigger] r[i] == p || s.contains(r[i]) by {
            if i < rd.len() {
                assert(r[i] == rd[i]);
                if rd[i] != p {
                    let j = choose|j: int| 0 <= j < d.len() && d[j] == rd[i];
                    assert(s[j] == d[j]);
                }
            } else {
                assert(r[i] == s[s.len() - 1]);
            }
        }
    } else if s.len() > 0 {
        assert forall|i: int| 0 <= i < r.len() implies #[trigger] r[i] == p || s.contains(r[i]) by {
            if i < s.len() {
                assert(r[i] == s[i]);
            }
        }
    }
}

/// Every element of `sort_by(s)` is an element of `s`.
pub proof fn lemma_sort_elements<T>(s: Seq<T>, before: spec_fn(T, T) -> bool)
    ensures
        forall|i: int| 0 <= i < sort_by(s, before).len() ==> s.contains(#[trigger] sort_by(s, before)[i]),
    decreases s.len(),
{
    if s.len() > 0 {
        let d = s.drop_last();
        lemma_sort_elements(d, before);
        let sd = sort_by(d, before);
        lemma_insert_elements(sd, s.last(), before);
        let r = sort_by(s, before);
        assert forall|i: int| 0 <= i < r.len() implies s.contains(#[trigger] r[i]) by {
            if r[i] == s.last() {
                assert(s[s.len() - 1] == r[i]);
            } else {
                let j = choose|j: int| 0 <= j < sd.len() && sd[j] == r[i];
                let m = choose|m: int| 0 <= m < d.len() && d[m] == sd[j];
                assert(s[m] == d[m]);
            }
        }
    }
}

/// Elements of `s` have pairwise different keys.
pub open spec fn keys_distinct<T, K>(s: Seq<T>, key: spec_fn(T) -> K) -> bool {
    forall|i: int, j: int| 0 <= i < j < s.len() ==> key(#[trigger] s[i]) != key(#[trigger] s[j])
}

proof fn lemma_insert_distinct<T, K>(
    s: Seq<T>,
    p: T,
    before: spec_fn(T, T) -> bool,
    key: spec_fn(T) -> K,
)
    requires
        keys_distinct(s, key),
        forall|i: int| 0 <= i < s.len() ==> key(#[trigger] s[i]) != key(p),
    ensures
        keys_distinct(insert_by(s, p, before), key),
    decreases s.len(),
{
    let r = insert_by(s, p, before);
    lemma_insert_len(s, p, before);
    if s.len() > 0 && before(p, s.last()) {
        let d = s.drop_last();
        let x = s.last();
        assert forall|i: int| 0 <= i < d.len() implies key(#[trigger] d[i]) != key(p) by {
            assert(d[i] == s[i]);
        }
        assert forall|i: int, j: int| 0 <= i < j < d.len() implies key(#[trigger] d[i]) != key(
            #[trigger] d[j],
        ) by {
            assert(d[i] == s[i] && d[j] == s[j]);
        }
        lemma_insert_distinct(d, p, before, key);
        lemma_insert_elements(d, p, before);
        lemma_insert_len(d, p, before);
        let rd = insert_by(d, p, before);
        assert forall|i: int, j: int| 0 <= i < j < r.len() implies key(#[trigger] r[i]) != key(
            #[trigger] r[j],
        ) by {
            if j < rd.len() {
                assert(r[i] == rd[i] && r[j] == rd[j]);
            } else {
                assert(r[j] == x);
                assert(r[i] == rd[i]);
                assert(rd[i] == p || d.contains(rd[i]));
                assert(x == s[s.len() - 1]);
                if rd[i] != p {
                    let m = choose|m: int| 0 <= m < d.len() && d[m] == rd[i];
                    assert(s[m] == d[m]);
                }
            }
        }
    } else if s.len() > 0 {
        assert forall|i: int, j: int| 0 <= i < j < r.len() implies key(#[trigger] r[i]) != key(
            #[trigger] r[j],
        ) by {
            assert(r[i] == s[i]);
            if j < s.len() {
                assert(r[j] == s[j]);
            }
        }
    }
}

/// Sorting keeps keys pairwise different.
pub proof fn lemma_sort_distinct<T, K>(s: Seq<T>, before: spec_fn(T, T) -> bool, key: spec_fn(T) -> K)
    requires
        keys_distinct(s, key),
    ensures
        keys_distinct(sort_by(s, before), key),
    decreases s.len(),
{
    if s.len() > 0 {
        let d = s.drop_last();
        assert forall|i: int, j: int| 0 <= i < j < d.len() implies key(#[trigger] d[i]) != key(
            #[trigger] d[j],
        ) by {
            assert(d[i] == s[i] && d[j] == s[j]);
        }
        lemma_sort_distinct(d, before, key);
        let sd = sort_by(d, before);
        lemma_sort_elements(d, before);
        assert forall|i: int| 0 <= i < sd.len() implies key(#[trigger] sd[i]) != key(s.last()) by {
            let m = choose|m: int| 0 <= m < d.len() && d[m] == sd[i];
            assert(s[m] == d[m]);
            assert(s[s.len() - 1] == s.last());
        }
        lemma_insert_distinct(sd, s.last(), before, key);
    }
}

/// No element of `s` strictly precedes one in front of it.
pub open spec fn ordered_by<T>(s: Seq<T>, before: spec_fn(T, T) -> bool) -> bool {
    forall|i: int, j: int| 0 <= i < j < s.len() ==> !before(#[trigger] s[j], #[trigger] s[i])
}

/// `before` is a strict weak order on the values that satisfy `dom`: irreflexive,
/// transitive, and with transitive incomparability.
pub open spec fn strict_weak_on<T>(before: spec_fn(T, T) -> bool, dom: spec_fn(T) -> bool) -> bool {
    &&& forall|a: T| #![trigger before(a, a)] dom(a) ==> !before(a, a)
    &&& forall|a: T, b: T, c: T|
        #![trigger before(a, b), before(b, c)]
        dom(a) && dom(b) && dom(c) && before(a, b) && before(b, c) ==> before(a, c)
    &&& forall|a: T, b: T, c: T|
        #![trigger before(a, b), before(b, c)]
        dom(a) && dom(b) && dom(c) && !before(a, b) && !before(b, c) ==> !before(a, c)
}

proof fn lemma_insert_ordered<T>(
    s: Seq<T>,
    p: T,
    before: spec_fn(T, T) -> bool,
    dom: spec_fn(T) -> bool,
)
    requires
        strict_weak_on(before, dom),
        ordered_by(s, before),
        dom(p),
        forall|i: int| 0 <= i < s.len() ==> dom(#[trigger] s[i]),
    ensures
        ordered_by(insert_by(s, p, before), before),
    decreases s.len(),
{
    let r = insert_by(s, p, before);
    lemma_insert_len(s, p, before);
    if s.len() > 0 && before(p, s.last()) {
        let d = s.drop_last();
        let x = s.last();
        assert(x == s[s.len() - 1]);
        assert forall|i: int, j: int| 0 <= i < j < d.len() implies !before(#[trigger] d[j], #[trigger] d[i]) by {
            assert(d[i] == s[i] && d[j] == s[j]);
        }
        assert forall|i: int| 0 <= i < d.len() implies dom(#[trigger] d[i]) by {
            assert(d[i] == s[i]);
        }
        lemma_insert_ordered(d, p, before, dom);
        lemma_insert_elements(d, p, before);
        lemma_insert_len(d, p, before);
        let rd = insert_by(d, p, before);
        assert(!before(x, p)) by {
            if before(x, p) {
                assert(before(p, x) && before(x, p));
                assert(before(p, p));
            }
        }
        assert forall|i: int, j: int| 0 <= i < j < r.len() implies !before(#[trigger] r[j], #[trigger] r[i]) by {
            if j < rd.len() {
                assert(r[i] == rd[i] && r[j] == rd[j]);
            } else {
                assert(r[j] == x);
                assert(r[i] == rd[i]);
                if rd[i] != p {
                    let m = choose|m: int| 0 <= m < d.len() && d[m] == rd[i];
                    assert(s[m] == d[m]);
                    assert(!before(s[s.len() - 1], s[m]));
                }
            }
        }
    } else if s.len() > 0 {
        let x = s.last();
        assert(x == s[s.len() - 1]);
        assert forall|i: int, j: int| 0 <= i < j < r.len() implies !before(#[trigger] r[j], #[trigger] r[i]) by {
            assert(r[i] == s[i]);
            if j < s.len() {
                assert(r[j] == s[j]);
            } else {
                assert(r[j] == p);
                if i < s.len() - 1 {
                    assert(!before(x, s[i]));
                    assert(!before(p, x));
                    assert(dom(s[i]) && dom(x));
                }
            }
        }
    }
}

/// The stable sort by a strict weak order is ordered.
pub proof fn lemma_sort_ordered<T>(s: Seq<T>, before: spec_fn(T, T) -> bool, dom: spec_fn(T) -> bool)
    requires
        strict_weak_on(before, dom),
        forall|i: int| 0 <= i < s.len() ==> dom(#[trigger] s[i]),
    ensures
        ordered_by(sort_by(s, before), before),
    decreases s.len(),
{
    if s.len() > 0 {
        let d = s.drop_last();
        assert forall|i: int| 0 <= i < d.len() implies dom(#[trigger] d[i]) by {
            assert(d[i] == s[i]);
        }
        lemma_sort_ordered(d, before, dom);
        let sd = sort_by(d, before);
        lemma_sort_elements(d, before);
        assert forall|i: int| 0 <= i < sd.len() implies dom(#[trigger] sd[i]) by {
            let m = choose|m: int| 0 <= m < d.len() && d[m] == sd[i];
        }
        assert(dom(s[s.len() - 1]));
        lemma_insert_ordered(sd, s.last(), before, dom);
    }
}

/// `insert_by(s, p)` holds `p` and every element of `s`.
pub proof fn lemma_insert_contains<T>(s: Seq<T>, p: T, before: spec_fn(T, T) -> bool)
    ensures
        insert_by(s, p, before).contains(p),
        forall|i: int| 0 <= i < s.len() ==> insert_by(s, p, before).contains(#[trigger] s[i]),
    decreases s.len(),
{
    let r = insert_by(s, p, before);
    lemma_insert_len(s, p, before);
    if s.len() == 0 {
        assert(r[0] == p);
    } else if before(p, s.last()) {
        let d = s.drop_last();
        lemma_insert_contains(d, p, before);
        let rd = insert_by(d, p, before);
        lemma_insert_len(d, p, before);
        let j = choose|j: int| 0 <= j < rd.len() && rd[j] == p;
        assert(r[j] == rd[j]);
        assert forall|i: int| 0 <= i < s.len() implies r.contains(#[trigger] s[i]) by {
            if i < d.len() {
                assert(d[i] == s[i]);
                let m = choose|m: int| 0 <= m < rd.len() && rd[m] == d[i];
                assert(r[m] == rd[m]);
            } else {
                assert(r[rd.len() as int] == s[i]);
            }
        }
    } else {
        assert(r[s.len() as int] == p);
        assert forall|i: int| 0 <= i < s.len() implies r.contains(#[trigger] s[i]) by {
            assert(r[i] == s[i]);
        }
    }
}

/// Every element of `s` is in `sort_by(s)`.
pub proof fn lemma_sort_contains<T>(s: Seq<T>, before: spec_fn(T, T) -> bool)
    ensures
        forall|i: int| 0 <= i < s.len() ==> sort_by(s, before).contains(#[trigger] s[i]),
    decreases s.len(),
{
    if s.len() > 0 {
        let d = s.drop_last();
        lemma_sort_contains(d, before);
        let sd = sort_by(d, before);
        lemma_insert_contains(sd, s.last(), before);
        let r = sort_by(s, before);
        assert forall|i: int| 0 <= i < s.len() implies r.contains(#[trigger] s[i]) by {
            if i < d.len() {
                assert(d[i] == s[i]);
                let m = choose|m: int| 0 <= m < sd.len() && sd[m] == d[i];
                assert(insert_by(sd, s.last(), before).contains(sd[m]));
            } else {
                assert(s[i] == s.last());
            }
        }
    }
}

} // verus!
