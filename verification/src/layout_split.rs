//! From a layout to a lane split: the lanes of any two-stage layout that places the
//! items one for one split the items in the way the depth-first search follows.

use vstd::prelude::*;
use vstd::set_lib::{set_int_range, lemma_int_range, lemma_subset_equality, lemma_map_size};
use vstd::relations::injective_on;
use crate::guillotine::{
    PackInstance, PlacedRect, key_of, item_of, keys_of, group_of, by_position, sort_by_position,
    stacks_from, two_stage_ok, OrderSeed, packed_results, effective_seeds, dfs_limit,
};
use crate::search::{primary_len, secondary_len};
use crate::two_stage::{places_all, placed_as, is_permutation, sides_positive, lemma_sort_perm};
use crate::lane_split::{
    fits_in_lanes, lane_fill, width_sum, pick_sum, lemma_pick_sum_remove, packing_found_for_a_lane_split,
};

verus! {

/// The lengths of a list of (position, length) pairs.
pub open spec fn lens(g: Seq<(i32, i32)>) -> Seq<int> {
    g.map_values(|q: (i32, i32)| q.1 as int)
}

/// The total length of a list of (position, length) pairs.
pub open spec fn len_sum(g: Seq<(i32, i32)>) -> int {
    width_sum(lens(g), g.len() as int)
}

/// A permutation of `0..n` takes every value.
proof fn lemma_perm_onto(perm: Seq<int>, n: int, y: int) -> (i: int)
    requires
        is_permutation(perm, n),
        0 <= y < n,
    ensures
        0 <= i < n,
        perm[i] == y,
{
    let x = set_int_range(0, n);
    lemma_int_range(0, n);
    let f = |i: int| perm[i];
    let img = x.map(f);
    assert(injective_on(f, x)) by {
        assert forall|a: int, b: int| x.contains(a) && x.contains(b) && #[trigger] f(a) == #[trigger] f(
            b,
        ) implies a == b by {
            if a < b {
                assert(perm[a] != perm[b]);
            } else if b < a {
                assert(perm[b] != perm[a]);
            }
        }
    }
    lemma_map_size(x, img, f);
    assert(img.subset_of(x)) by {
        assert forall|v: int| img.contains(v) implies x.contains(v) by {
            let a = choose|a: int| x.contains(a) && v == f(a);
            assert(0 <= perm[a] < n);
        }
    }
    lemma_subset_equality(img, x);
    assert(x.contains(y));
    assert(img.contains(y));
    let i = choose|i: int| x.contains(i) && y == f(i);
    i
}

/// Summing the entries a permutation lists gives the sum of all entries.
proof fn lemma_pick_sum_perm(sigma: Seq<int>, w: Seq<int>, n: int)
    requires
        is_permutation(sigma, n),
        n <= w.len(),
    ensures
        pick_sum(sigma, w) == width_sum(w, n),
    decreases n,
{
    if n == 0 {
        assert(sigma.len() == 0);
    } else {
        let i0 = lemma_perm_onto(sigma, n, n - 1);
        let r = sigma.remove(i0);
        lemma_pick_sum_remove(sigma, w, i0);
        assert forall|j: int| 0 <= j < n - 1 implies 0 <= #[trigger] r[j] < n - 1 by {
            if j < i0 {
                assert(r[j] == sigma[j]);
                assert(sigma[j] != sigma[i0]);
            } else {
                assert(r[j] == sigma[j + 1]);
                assert(sigma[i0] != sigma[j + 1]);
            }
        }
        assert forall|a: int, b: int| 0 <= a < b < n - 1 implies #[trigger] r[a] != #[trigger] r[b] by {
            let a2 = if a < i0 { a } else { a + 1 };
            let b2 = if b < i0 { b } else { b + 1 };
            assert(r[a] == sigma[a2] && r[b] == sigma[b2]);
        }
        lemma_pick_sum_perm(r, w, n - 1);
    }
}

/// Entries picked through `sigma` that match `h` sum as `h` does.
proof fn lemma_pick_sum_reindex(sigma: Seq<int>, g: Seq<int>, h: Seq<int>, m: int)
    requires
        0 <= m <= sigma.len(),
        forall|i: int| 0 <= i < sigma.len() ==> g[#[trigger] sigma[i]] == h[i],
    ensures
        pick_sum(sigma.take(m), g) == width_sum(h, m),
    decreases m,
{
    if m > 0 {
        lemma_pick_sum_reindex(sigma, g, h, m - 1);
        assert(sigma.take(m).drop_last() =~= sigma.take(m - 1));
        assert(sigma.take(m).last() == sigma[m - 1]);
    } else {
        assert(sigma.take(0).len() == 0);
    }
}

/// A sum of the first `m` entries reads only those entries.
proof fn lemma_width_sum_ext(a: Seq<int>, b: Seq<int>, m: int)
    requires
        0 <= m <= a.len(),
        m <= b.len(),
        forall|i: int| 0 <= i < m ==> a[i] == b[i],
    ensures
        width_sum(a, m) == width_sum(b, m),
    decreases m,
{
    if m > 0 {
        lemma_width_sum_ext(a, b, m - 1);
    }
}

/// A sum splits off its first entry.
proof fn lemma_width_sum_first(a: Seq<int>, m: int)
    requires
        1 <= m <= a.len(),
    ensures
        width_sum(a, m) == a[0] + width_sum(a.drop_first(), m - 1),
    decreases m,
{
    if m > 1 {
        lemma_width_sum_first(a, m - 1);
        assert(a.drop_first()[m - 2] == a[m - 1]);
    } else {
        assert(width_sum(a, 0) == 0);
        assert(width_sum(a.drop_first(), 0) == 0);
    }
}

/// Reordering pairs by position keeps their total length.
proof fn lemma_sorted_len_sum(g: Seq<(i32, i32)>)
    ensures
        len_sum(sort_by_position(g)) == len_sum(g),
{
    let s = sort_by_position(g);
    let sigma = lemma_sort_perm(g, by_position());
    let n = g.len() as int;
    assert forall|i: int| 0 <= i < sigma.len() implies lens(g)[#[trigger] sigma[i]] == lens(s)[i] by {
        assert(0 <= sigma[i] < n);
        assert(s[i] == g[sigma[i]]);
    }
    lemma_pick_sum_reindex(sigma, lens(g), lens(s), n);
    assert(sigma.take(n) =~= sigma);
    lemma_pick_sum_perm(sigma, lens(g), n);
}

/// Pieces that stack from `start` within `limit` have a total length that fits.
proof fn lemma_stack_len_sum(g: Seq<(i32, i32)>, start: int, limit: int)
    requires
        stacks_from(g, start, limit),
    ensures
        start + len_sum(g) <= limit,
    decreases g.len(),
{
    if g.len() == 0 {
        assert(len_sum(g) == 0);
    } else {
        lemma_stack_len_sum(g.drop_first(), start + g[0].1, limit);
        lemma_width_sum_first(lens(g), g.len() as int);
        assert(lens(g).drop_first() =~= lens(g.drop_first()));
    }
}


/// The distinct keys of a layout: each rectangle's key is among them, each of them is
/// some rectangle's key, and none repeats.
proof fn lemma_keys_of(r: Seq<PlacedRect>, t: bool)
    ensures
        forall|i: int| 0 <= i < r.len() ==> keys_of(r, t).contains(#[trigger] key_of(r[i], t)),
        forall|c: int|
            0 <= c < keys_of(r, t).len() ==> exists|i: int|
                0 <= i < r.len() && key_of(r[i], t) == #[trigger] keys_of(r, t)[c],
        forall|a: int, b: int|
            0 <= a < b < keys_of(r, t).len() ==> #[trigger] keys_of(r, t)[a] != #[trigger] keys_of(r, t)[b],
    decreases r.len(),
{
    if r.len() > 0 {
        let d = r.drop_last();
        lemma_keys_of(d, t);
        let kd = keys_of(d, t);
        let k = keys_of(r, t);
        let x = key_of(r.last(), t);
        assert forall|i: int| 0 <= i < r.len() implies k.contains(#[trigger] key_of(r[i], t)) by {
            if i < d.len() {
                assert(r[i] == d[i]);
                let j = choose|j: int| 0 <= j < kd.len() && kd[j] == key_of(d[i], t);
                if !kd.contains(x) {
                    assert(k[j] == kd[j]);
                }
            } else {
                assert(r[i] == r.last());
                if !kd.contains(x) {
                    assert(k[kd.len() as int] == x);
                }
            }
        }
        assert forall|c: int| 0 <= c < k.len() implies exists|i: int|
            0 <= i < r.len() && key_of(r[i], t) == #[trigger] k[c] by {
            if c < kd.len() {
                assert(k[c] == kd[c]);
                let i = choose|i: int| 0 <= i < d.len() && key_of(d[i], t) == kd[c];
                assert(r[i] == d[i]);
            } else {
                assert(k[c] == x);
                assert(r[r.len() - 1] == r.last());
            }
        }
        assert forall|a: int, b: int| 0 <= a < b < k.len() implies #[trigger] k[a] != #[trigger] k[b] by {
            if b < kd.len() {
                assert(k[a] == kd[a] && k[b] == kd[b]);
            } else {
                assert(k[a] == kd[a] && k[b] == x);
            }
        }
    }
}

/// A lane's fill is the sum of its items' entries.
proof fn lemma_fill_sum(
    items: Seq<PackInstance>,
    t: bool,
    col: Seq<int>,
    rot: Seq<bool>,
    c: int,
    g: Seq<int>,
    k: int,
)
    requires
        0 <= k <= g.len(),
        forall|i: int|
            0 <= i < g.len() ==> #[trigger] g[i] == if col[i] == c {
                secondary_len(items[i], t, rot[i]) as int
            } else {
                0
            },
    ensures
        lane_fill(items, t, col, rot, k, c) == width_sum(g, k),
    decreases k,
{
    if k > 0 {
        lemma_fill_sum(items, t, col, rot, c, g, k - 1);
    }
}

/// A group's total length is the sum of the matching rectangles' secondary lengths.
proof fn lemma_group_sum(r: Seq<PlacedRect>, t: bool, key: (i32, i32), h: Seq<int>, i: int)
    requires
        0 <= i <= r.len(),
        h.len() == r.len(),
        forall|j: int|
            0 <= j < r.len() ==> #[trigger] h[j] == if key_of(r[j], t) == key {
                item_of(r[j], t).1 as int
            } else {
                0
            },
    ensures
        len_sum(group_of(r.take(i), t, key)) == width_sum(h, i),
    decreases i,
{
    if i == 0 {
        assert(r.take(0).len() == 0);
        assert(group_of(r.take(0), t, key).len() == 0);
    } else {
        lemma_group_sum(r, t, key, h, i - 1);
        let p = r.take(i);
        assert(p.drop_last() =~= r.take(i - 1));
        assert(p.last() == r[i - 1]);
        let g0 = group_of(r.take(i - 1), t, key);
        if key_of(r[i - 1], t) == key {
            let g1 = g0.push(item_of(r[i - 1], t));
            assert(group_of(p, t, key) == g1);
            lemma_width_sum_ext(lens(g1), lens(g0), g0.len() as int);
        }
    }
}

/// From a two-stage layout of the items (each side at least 1) along axis `t` on a
/// `wp × hp` sheet, placing them one for one, the layout's lanes give a split of the
/// items into lanes that fit the sheet, as `fits_in_lanes` states it.
#[verifier::spinoff_prover]
#[verifier::rlimit(40)]
pub proof fn layout_gives_a_lane_split(
    rects: Seq<PlacedRect>,
    items: Seq<PackInstance>,
    t: bool,
    dflt: bool,
    wp: int,
    hp: int,
) -> (split: (Seq<int>, Seq<bool>, Seq<int>))
    requires
        sides_positive(items),
        wp >= 0,
        hp >= 0,
        two_stage_ok(rects, t, wp, hp),
        places_all(rects, items, dflt),
    ensures
        fits_in_lanes(
            items,
            t,
            dflt,
            if t { hp } else { wp },
            if t { wp } else { hp },
            split.0,
            split.1,
            split.2,
        ),
{
    let n = items.len() as int;
    let l1 = if t { hp } else { wp };
    let l2 = if t { wp } else { hp };
    let perm = choose|perm: Seq<int>|
        is_permutation(perm, n) && forall|i: int|
            0 <= i < n ==> placed_as(#[trigger] rects[i], items[perm[i]], dflt);
    let keys = keys_of(rects, t);
    lemma_keys_of(rects, t);
    let inv = Seq::new(n as nat, |k: int| choose|i: int| 0 <= i < n && perm[i] == k);
    assert forall|k: int| 0 <= k < n implies 0 <= #[trigger] inv[k] < n && perm[inv[k]] == k by {
        let i = lemma_perm_onto(perm, n, k);
        assert(0 <= i < n && perm[i] == k);
    }
    let col = Seq::new(
        n as nat,
        |k: int| choose|c: int| 0 <= c < keys.len() && keys[c] == key_of(rects[inv[k]], t),
    );
    let rot = Seq::new(n as nat, |k: int| rects[inv[k]].rotated);
    let widths = Seq::new(keys.len(), |c: int| keys[c].1 as int);
    // Each item sits in its rectangle's lane, with that lane's width.
    assert forall|k: int| 0 <= k < n implies 0 <= #[trigger] col[k] < keys.len() && keys[col[k]]
        == key_of(rects[inv[k]], t) && placed_as(rects[inv[k]], items[k], dflt) by {
        assert(0 <= inv[k] < n && perm[inv[k]] == k);
        assert(keys.contains(key_of(rects[inv[k]], t)));
        assert(placed_as(rects[inv[k]], items[perm[inv[k]]], dflt));
    }
    assert forall|k: int| 0 <= k < n implies #[trigger] rot[k] ==> crate::search::allows_rotation(
        items[k],
        dflt,
    ) by {
        assert(0 <= col[k] < keys.len());
        assert(placed_as(rects[inv[k]], items[k], dflt));
        reveal(placed_as);
    }
    assert forall|k: int| 0 <= k < n implies primary_len(items[k], t, rot[k]) == widths[#[trigger] col[k]]
        && secondary_len(items[k], t, rot[k]) == item_of(rects[inv[k]], t).1 by {
        assert(0 <= col[k] < keys.len());
        assert(placed_as(rects[inv[k]], items[k], dflt));
        assert(rot[k] == rects[inv[k]].rotated);
        assert(widths[col[k]] == keys[col[k]].1 as int);
        reveal(placed_as);
        assert(keys[col[k]] == key_of(rects[inv[k]], t));
    }
    assert forall|c: int| 0 <= c < widths.len() implies 0 <= #[trigger] widths[c] by {
        let i = choose|i: int| 0 <= i < rects.len() && key_of(rects[i], t) == keys[c];
        assert(placed_as(rects[i], items[perm[i]], dflt));
        assert(0 <= perm[i] < n);
        assert(items[perm[i]].w >= 1 && items[perm[i]].h >= 1);
        reveal(placed_as);
    }
    // The lanes' widths fit the primary extent.
    assert(rects.len() == n);
    assert(lens(keys) =~= widths);
    if n > 0 {
        assert(crate::guillotine::stages_ok(rects, t, l1, l2));
        lemma_stack_len_sum(sort_by_position(keys), 0, l1);
        lemma_sorted_len_sum(keys);
    } else {
        assert(keys.len() == 0);
        assert(width_sum(widths, 0) == 0);
    }
    // Each lane's items fit the secondary extent.
    assert forall|c: int| 0 <= c < widths.len() implies #[trigger] lane_fill(items, t, col, rot, n, c)
        <= l2 by {
        let g = Seq::new(
            n as nat,
            |k: int| if col[k] == c { secondary_len(items[k], t, rot[k]) as int } else { 0 },
        );
        let h = Seq::new(
            n as nat,
            |i: int| if key_of(rects[i], t) == keys[c] { item_of(rects[i], t).1 as int } else { 0 },
        );
        lemma_fill_sum(items, t, col, rot, c, g, n);
        assert forall|i: int| 0 <= i < perm.len() implies g[#[trigger] perm[i]] == h[i] by {
            let k = perm[i];
            assert(0 <= k < n);
            assert(perm[inv[k]] == k);
            if inv[k] != i {
                if inv[k] < i {
                    assert(perm[inv[k]] != perm[i]);
                } else {
                    assert(perm[i] != perm[inv[k]]);
                }
            }
            assert(inv[k] == i);
            assert(keys[col[k]] == key_of(rects[i], t));
            if col[k] != c {
                assert(keys[col[k]] != keys[c]) by {
                    if col[k] < c {
                        assert(keys[col[k]] != keys[c]);
                    } else {
                        assert(keys[c] != keys[col[k]]);
                    }
                }
            }
        }
        lemma_pick_sum_reindex(perm, g, h, n);
        assert(perm.take(n) =~= perm);
        lemma_pick_sum_perm(perm, g, n);
        lemma_group_sum(rects, t, keys[c], h, n);
        assert(rects.take(n) =~= rects);
        let grp = group_of(rects, t, keys[c]);
        assert(crate::guillotine::stages_ok(rects, t, l1, l2));
        lemma_stack_len_sum(sort_by_position(grp), 0, l2);
        lemma_sorted_len_sum(grp);
    }
    (col, rot, widths)
}


/// When the orderings tried include the instances' own order (`Default`, as in the
/// default list), there are at most 12 instances, each side at least 1, at least one
/// packing is asked for, and some two-stage layout (V–H for `t == false`, H–V for
/// `t == true`) on the `wp × hp` sheet places the instances one for one,
/// `pack_multi_stage` returns a packing.
pub proof fn packing_found_when_a_layout_exists(
    wp: int,
    hp: int,
    instances: Seq<PackInstance>,
    seeds: Seq<OrderSeed>,
    max_sol: int,
    dflt: bool,
    t: bool,
    rects: Seq<PlacedRect>,
)
    requires
        sides_positive(instances),
        instances.len() <= dfs_limit(),
        0 <= wp <= i32::MAX,
        0 <= hp <= i32::MAX,
        max_sol >= 1,
        effective_seeds(seeds).contains(OrderSeed::Default),
        two_stage_ok(rects, t, wp, hp),
        places_all(rects, instances, dflt),
    ensures
        packed_results(wp, hp, instances, seeds, max_sol, dflt).len() > 0,
{
    let split = layout_gives_a_lane_split(rects, instances, t, dflt, wp, hp);
    packing_found_for_a_lane_split(wp, hp, instances, seeds, max_sol, dflt, t, split.0, split.1, split.2);
}

} // verus!
