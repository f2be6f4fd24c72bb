//! When the depth-first search must succeed: whenever the items can be split into lanes
//! (columns for V–H, rows for H–V) that fit the sheet, the search finds a packing.

use vstd::prelude::*;
use crate::search::{
    Lane, Slot, used_len, place_in, open_lane, lemma_used_update, lane_moves, new_lane_moves,
    rot_moves, moves, dfs, first_some, primary_len, secondary_len, allows_rotation, search_outcome,
};
use crate::guillotine::{
    PackInstance, PackMode, PackResultView, OrderSeed, try_add, seed_step, run_seeds, packed_results,
    effective_seeds, sorted_instances, seed_before, dfs_limit, util_before, instance_area_sum,
};
use crate::two_stage::{sides_positive, distinct, search_layout_is_two_stage};
use crate::sorting::{sort_by, insert_by, lemma_sort_len};

verus! {

/// The secondary length that the first `k` items of lane `c` take.
pub open spec fn lane_fill(
    items: Seq<PackInstance>,
    t: bool,
    col: Seq<int>,
    rot: Seq<bool>,
    k: int,
    c: int,
) -> int
    decreases k,
{
    if k <= 0 {
        0
    } else {
        lane_fill(items, t, col, rot, k - 1, c) + if col[k - 1] == c {
            secondary_len(items[k - 1], t, rot[k - 1]) as int
        } else {
            0
        }
    }
}

/// The sum of the first `m` lane widths.
pub open spec fn width_sum(widths: Seq<int>, m: int) -> int
    decreases m,
{
    if m <= 0 {
        0
    } else {
        width_sum(widths, m - 1) + widths[m - 1]
    }
}

/// The sum of the widths of the lanes listed in `lc`.
pub open spec fn pick_sum(lc: Seq<int>, widths: Seq<int>) -> int
    decreases lc.len(),
{
    if lc.len() == 0 {
        0
    } else {
        pick_sum(lc.drop_last(), widths) + widths[lc.last()]
    }
}

/// A split of the items into lanes that fits an `l1 × l2` sheet (axes swapped for
/// `t == true`): item `k` goes to lane `col[k]`, turned when `rot[k]` (only where it may
/// turn), and takes that lane's width `widths[col[k]]` along the primary axis; the
/// widths add up to at most `l1`; and each lane's items add up to at most `l2`.
pub open spec fn fits_in_lanes(
    items: Seq<PackInstance>,
    t: bool,
    dflt: bool,
    l1: int,
    l2: int,
    col: Seq<int>,
    rot: Seq<bool>,
    widths: Seq<int>,
) -> bool {
    let n = items.len() as int;
    &&& col.len() == n
    &&& rot.len() == n
    &&& forall|k: int| 0 <= k < n ==> 0 <= #[trigger] col[k] < widths.len()
    &&& forall|k: int| 0 <= k < n ==> #[trigger] rot[k] ==> allows_rotation(items[k], dflt)
    &&& forall|k: int|
        0 <= k < n ==> primary_len(items[k], t, rot[k]) == widths[#[trigger] col[k]]
    &&& forall|c: int| 0 <= c < widths.len() ==> 0 <= #[trigger] widths[c]
    &&& width_sum(widths, widths.len() as int) <= l1
    &&& forall|c: int| 0 <= c < widths.len() ==> #[trigger] lane_fill(items, t, col, rot, n, c) <= l2
}

/// The search state after the first `k` items follow the split: search lane `j` is the
/// split's lane `lc[j]` (each at most once), with its width and the fill of its items
/// so far, and every lane that those items use is open.
spec fn follows_split(
    st: (Seq<Lane>, Seq<Slot>),
    k: int,
    items: Seq<PackInstance>,
    t: bool,
    col: Seq<int>,
    rot: Seq<bool>,
    widths: Seq<int>,
    lc: Seq<int>,
) -> bool {
    &&& lc.len() == st.0.len()
    &&& distinct(lc)
    &&& forall|j: int| 0 <= j < lc.len() ==> 0 <= #[trigger] lc[j] < widths.len()
    &&& forall|i: int| 0 <= i < k ==> lc.contains(#[trigger] col[i])
    &&& forall|j: int|
        0 <= j < st.0.len() ==> (#[trigger] st.0[j]).len == widths[lc[j]] && st.0[j].fill
            == lane_fill(items, t, col, rot, k, lc[j])
    &&& used_len(st.0) == pick_sum(lc, widths)
}

pub proof fn lemma_pick_sum_remove(lc: Seq<int>, widths: Seq<int>, i: int)
    requires
        0 <= i < lc.len(),
    ensures
        pick_sum(lc, widths) == pick_sum(lc.remove(i), widths) + widths[lc[i]],
    decreases lc.len(),
{
    if i == lc.len() - 1 {
        assert(lc.remove(i) =~= lc.drop_last());
    } else {
        let d = lc.drop_last();
        lemma_pick_sum_remove(d, widths, i);
        assert(lc.remove(i).drop_last() =~= d.remove(i));
        assert(lc.remove(i).last() == lc.last());
    }
}

/// Distinct lanes below `m` have widths adding up to at most the first `m` widths.
proof fn lemma_pick_sum_le(lc: Seq<int>, widths: Seq<int>, m: int)
    requires
        distinct(lc),
        forall|j: int| 0 <= j < lc.len() ==> 0 <= #[trigger] lc[j] < m,
        0 <= m <= widths.len(),
        forall|c: int| 0 <= c < widths.len() ==> 0 <= #[trigger] widths[c],
    ensures
        pick_sum(lc, widths) <= width_sum(widths, m),
    decreases m,
{
    if m == 0 {
        if lc.len() > 0 {
            let x = lc[0];
            assert(0 <= x < m);
        }
        assert(lc.len() == 0);
    } else if lc.contains(m - 1) {
        let i = choose|i: int| 0 <= i < lc.len() && lc[i] == m - 1;
        let r = lc.remove(i);
        lemma_pick_sum_remove(lc, widths, i);
        assert forall|j: int| 0 <= j < r.len() implies 0 <= #[trigger] r[j] < m - 1 by {
            if j < i {
                assert(r[j] == lc[j]);
                assert(lc[j] != lc[i]);
            } else {
                assert(r[j] == lc[j + 1]);
                assert(lc[i] != lc[j + 1]);
            }
        }
        assert forall|a: int, b: int| 0 <= a < b < r.len() implies #[trigger] r[a] != #[trigger] r[b] by {
            let a2 = if a < i { a } else { a + 1 };
            let b2 = if b < i { b } else { b + 1 };
            assert(r[a] == lc[a2] && r[b] == lc[b2]);
        }
        lemma_pick_sum_le(r, widths, m - 1);
    } else {
        assert forall|j: int| 0 <= j < lc.len() implies 0 <= #[trigger] lc[j] < m - 1 by {
            assert(lc[j] != m - 1);
        }
        lemma_pick_sum_le(lc, widths, m - 1);
    }
}

proof fn lemma_fill_mono(
    items: Seq<PackInstance>,
    t: bool,
    col: Seq<int>,
    rot: Seq<bool>,
    k: int,
    n: int,
    c: int,
)
    requires
        0 <= k <= n <= items.len(),
        sides_positive(items),
    ensures
        0 <= lane_fill(items, t, col, rot, k, c) <= lane_fill(items, t, col, rot, n, c),
    decreases n - k,
{
    lemma_fill_nonneg(items, t, col, rot, k, c);
    if k < n {
        lemma_fill_mono(items, t, col, rot, k + 1, n, c);
        assert(items[k].w >= 1 && items[k].h >= 1);
    }
}

proof fn lemma_fill_nonneg(items: Seq<PackInstance>, t: bool, col: Seq<int>, rot: Seq<bool>, k: int, c: int)
    requires
        0 <= k <= items.len(),
        sides_positive(items),
    ensures
        0 <= lane_fill(items, t, col, rot, k, c),
    decreases k,
{
    if k > 0 {
        lemma_fill_nonneg(items, t, col, rot, k - 1, c);
        assert(items[k - 1].w >= 1 && items[k - 1].h >= 1);
    }
}

/// A lane that no item before `k` uses is empty so far.
proof fn lemma_fill_unused(items: Seq<PackInstance>, t: bool, col: Seq<int>, rot: Seq<bool>, k: int, c: int)
    requires
        0 <= k,
        forall|i: int| 0 <= i < k ==> #[trigger] col[i] != c,
    ensures
        lane_fill(items, t, col, rot, k, c) == 0,
    decreases k,
{
    if k > 0 {
        lemma_fill_unused(items, t, col, rot, k - 1, c);
    }
}

/// Lane `ci`'s placement is among the moves into existing lanes from `start` on.
proof fn lemma_lane_move_listed(
    st: (Seq<Lane>, Seq<Slot>),
    k: int,
    p: i32,
    s: i32,
    rot: bool,
    l2: int,
    start: int,
    ci: int,
)
    requires
        0 <= start <= ci < st.0.len(),
        st.0[ci].len == p,
        st.0[ci].fill + s <= l2,
    ensures
        lane_moves(st, k, p, s, rot, l2, start).contains(place_in(st, ci, k, p, s, rot)),
    decreases ci - start,
{
    let all = lane_moves(st, k, p, s, rot, l2, start);
    if start == ci {
        assert(all[0] == place_in(st, ci, k, p, s, rot));
    } else {
        lemma_lane_move_listed(st, k, p, s, rot, l2, start + 1, ci);
        let rest = lane_moves(st, k, p, s, rot, l2, start + 1);
        let j = choose|j: int| 0 <= j < rest.len() && rest[j] == place_in(st, ci, k, p, s, rot);
        if st.0[start].len == p && st.0[start].fill + s <= l2 {
            assert(all[j + 1] == rest[j]);
        } else {
            assert(all[j] == rest[j]);
        }
    }
}

/// A move of orientation `rot` (allowed for the item) is among all the item's moves.
proof fn lemma_rot_move_listed(
    st: (Seq<Lane>, Seq<Slot>),
    k: int,
    inst: PackInstance,
    t: bool,
    dflt: bool,
    rot: bool,
    l1: int,
    l2: int,
    m: (Seq<Lane>, Seq<Slot>),
)
    requires
        rot_moves(st, k, inst, t, rot, l1, l2).contains(m),
        rot ==> allows_rotation(inst, dflt),
    ensures
        moves(st, k, inst, t, dflt, l1, l2).contains(m),
{
    let a = rot_moves(st, k, inst, t, false, l1, l2);
    let ms = moves(st, k, inst, t, dflt, l1, l2);
    let here = rot_moves(st, k, inst, t, rot, l1, l2);
    let j = choose|j: int| 0 <= j < here.len() && here[j] == m;
    if rot {
        assert(ms[a.len() + j] == m);
    } else {
        assert(ms[j] == m);
    }
}

/// When one listed state leads the search to a packing, the search over the list finds
/// one.
proof fn lemma_first_some_found(
    ms: Seq<(Seq<Lane>, Seq<Slot>)>,
    m: (Seq<Lane>, Seq<Slot>),
    k: int,
    items: Seq<PackInstance>,
    t: bool,
    dflt: bool,
    l1: int,
    l2: int,
)
    requires
        ms.contains(m),
        dfs(m, k, items, t, dflt, l1, l2) is Some,
    ensures
        first_some(ms, k, items, t, dflt, l1, l2) is Some,
    decreases ms.len(),
{
    if dfs(ms[0], k, items, t, dflt, l1, l2) is None {
        let d = ms.drop_first();
        let j = choose|j: int| 0 <= j < ms.len() && ms[j] == m;
        assert(j != 0);
        assert(d[j - 1] == m);
        lemma_first_some_found(d, m, k, items, t, dflt, l1, l2);
    }
}


/// What the step for item `k` needs: its lane and lengths there, and the fills it
/// leaves.
proof fn lemma_step_facts(
    items: Seq<PackInstance>,
    t: bool,
    dflt: bool,
    l1: int,
    l2: int,
    col: Seq<int>,
    rot: Seq<bool>,
    widths: Seq<int>,
    k: int,
)
    requires
        sides_positive(items),
        fits_in_lanes(items, t, dflt, l1, l2, col, rot, widths),
        0 <= k < items.len(),
    ensures
        0 <= col[k] < widths.len(),
        primary_len(items[k], t, rot[k]) == widths[col[k]],
        rot[k] ==> allows_rotation(items[k], dflt),
        1 <= secondary_len(items[k], t, rot[k]),
        0 <= lane_fill(items, t, col, rot, k, col[k]),
        lane_fill(items, t, col, rot, k + 1, col[k]) == lane_fill(items, t, col, rot, k, col[k])
            + secondary_len(items[k], t, rot[k]),
        lane_fill(items, t, col, rot, k + 1, col[k]) <= l2,
        forall|j: int|
            j != col[k] ==> #[trigger] lane_fill(items, t, col, rot, k + 1, j) == lane_fill(
                items,
                t,
                col,
                rot,
                k,
                j,
            ),
{
    let n = items.len() as int;
    let c = col[k];
    assert(items[k].w >= 1 && items[k].h >= 1);
    lemma_fill_mono(items, t, col, rot, k + 1, n, c);
    lemma_fill_nonneg(items, t, col, rot, k, c);
    assert(lane_fill(items, t, col, rot, n, c) <= l2);
}

/// Item `k` on top of its lane, which an earlier item opened.
proof fn lemma_step_existing(
    st: (Seq<Lane>, Seq<Slot>),
    k: int,
    items: Seq<PackInstance>,
    t: bool,
    dflt: bool,
    l1: int,
    l2: int,
    col: Seq<int>,
    rot: Seq<bool>,
    widths: Seq<int>,
    lc: Seq<int>,
) -> (next: (Seq<Lane>, Seq<Slot>))
    requires
        sides_positive(items),
        l2 <= i32::MAX,
        fits_in_lanes(items, t, dflt, l1, l2, col, rot, widths),
        0 <= k < items.len(),
        follows_split(st, k, items, t, col, rot, widths, lc),
        lc.contains(col[k]),
    ensures
        moves(st, k, items[k], t, dflt, l1, l2).contains(next),
        follows_split(next, k + 1, items, t, col, rot, widths, lc),
{
    lemma_step_facts(items, t, dflt, l1, l2, col, rot, widths, k);
    let inst = items[k];
    let r = rot[k];
    let c = col[k];
    let ci = choose|ci: int| 0 <= ci < lc.len() && lc[ci] == c;
    let p = primary_len(inst, t, r);
    let s = secondary_len(inst, t, r);
    let next = place_in(st, ci, k, p, s, r);
    assert(st.0[ci].len == p);
    assert(st.0[ci].fill + s <= l2);
    lemma_lane_move_listed(st, k, p, s, r, l2, 0, ci);
    assert(rot_moves(st, k, inst, t, r, l1, l2).contains(next)) by {
        let lm = lane_moves(st, k, p, s, r, l2, 0);
        let j = choose|j: int| 0 <= j < lm.len() && lm[j] == next;
        assert(rot_moves(st, k, inst, t, r, l1, l2)[j] == next);
    }
    lemma_rot_move_listed(st, k, inst, t, dflt, r, l1, l2, next);
    let nl = Lane { pos: st.0[ci].pos, len: st.0[ci].len, fill: (st.0[ci].fill + s) as i32 };
    assert(next.0 == st.0.update(ci, nl));
    lemma_used_update(st.0, ci, nl);
    assert forall|j: int| 0 <= j < next.0.len() implies (#[trigger] next.0[j]).len == widths[lc[j]]
        && next.0[j].fill == lane_fill(items, t, col, rot, k + 1, lc[j]) by {
        if j != ci {
            assert(next.0[j] == st.0[j]);
            assert(lc[j] != lc[ci]);
        }
    }
    assert forall|i: int| 0 <= i < k + 1 implies lc.contains(#[trigger] col[i]) by {
        if i == k {
            assert(lc[ci] == col[k]);
        }
    }
    next
}

/// Item `k` opens its lane, which no earlier item uses.
proof fn lemma_step_new(
    st: (Seq<Lane>, Seq<Slot>),
    k: int,
    items: Seq<PackInstance>,
    t: bool,
    dflt: bool,
    l1: int,
    l2: int,
    col: Seq<int>,
    rot: Seq<bool>,
    widths: Seq<int>,
    lc: Seq<int>,
) -> (next: (Seq<Lane>, Seq<Slot>))
    requires
        sides_positive(items),
        l2 <= i32::MAX,
        fits_in_lanes(items, t, dflt, l1, l2, col, rot, widths),
        0 <= k < items.len(),
        follows_split(st, k, items, t, col, rot, widths, lc),
        !lc.contains(col[k]),
    ensures
        moves(st, k, items[k], t, dflt, l1, l2).contains(next),
        follows_split(next, k + 1, items, t, col, rot, widths, lc.push(col[k])),
{
    lemma_step_facts(items, t, dflt, l1, l2, col, rot, widths, k);
    let inst = items[k];
    let r = rot[k];
    let c = col[k];
    let p = primary_len(inst, t, r);
    let s = secondary_len(inst, t, r);
    let next = open_lane(st, k, p, s, r);
    let lc2 = lc.push(c);
    assert forall|i: int| 0 <= i < k implies #[trigger] col[i] != c by {
        assert(lc.contains(col[i]));
    }
    lemma_fill_unused(items, t, col, rot, k, c);
    assert forall|a: int, b: int| 0 <= a < b < lc2.len() implies #[trigger] lc2[a] != #[trigger] lc2[b] by {
        if b == lc.len() {
            assert(lc2[a] == lc[a]);
        } else {
            assert(lc2[a] == lc[a] && lc2[b] == lc[b]);
        }
    }
    assert forall|j: int| 0 <= j < lc2.len() implies 0 <= #[trigger] lc2[j] < widths.len() by {
        if j < lc.len() {
            assert(lc2[j] == lc[j]);
        }
    }
    assert(lc2.drop_last() =~= lc);
    lemma_pick_sum_le(lc2, widths, widths.len() as int);
    assert(used_len(st.0) + p <= l1);
    assert(s <= l2);
    assert(new_lane_moves(st, k, p, s, r, l1, l2) == seq![next]);
    assert(rot_moves(st, k, inst, t, r, l1, l2).contains(next)) by {
        let lm = lane_moves(st, k, p, s, r, l2, 0);
        assert(rot_moves(st, k, inst, t, r, l1, l2)[lm.len() as int] == next);
    }
    lemma_rot_move_listed(st, k, inst, t, dflt, r, l1, l2, next);
    assert(next.0.drop_last() =~= st.0);
    assert forall|j: int| 0 <= j < next.0.len() implies (#[trigger] next.0[j]).len == widths[lc2[j]]
        && next.0[j].fill == lane_fill(items, t, col, rot, k + 1, lc2[j]) by {
        if j < st.0.len() {
            assert(next.0[j] == st.0[j]);
            assert(lc2[j] == lc[j]);
            assert(lc.contains(lc[j]));
        }
    }
    assert forall|i: int| 0 <= i < k + 1 implies lc2.contains(#[trigger] col[i]) by {
        if i == k {
            assert(lc2[lc.len() as int] == c);
        } else {
            let j = choose|j: int| 0 <= j < lc.len() && lc[j] == col[i];
            assert(lc2[j] == lc[j]);
        }
    }
    next
}

/// Following the split from a state that follows it, the search finds a packing.
proof fn lemma_follow_split(
    st: (Seq<Lane>, Seq<Slot>),
    k: int,
    items: Seq<PackInstance>,
    t: bool,
    dflt: bool,
    l1: int,
    l2: int,
    col: Seq<int>,
    rot: Seq<bool>,
    widths: Seq<int>,
    lc: Seq<int>,
)
    requires
        sides_positive(items),
        l2 <= i32::MAX,
        fits_in_lanes(items, t, dflt, l1, l2, col, rot, widths),
        0 <= k <= items.len(),
        follows_split(st, k, items, t, col, rot, widths, lc),
    ensures
        dfs(st, k, items, t, dflt, l1, l2) is Some,
    decreases items.len() - k,
{
    if k < items.len() {
        if lc.contains(col[k]) {
            let next = lemma_step_existing(st, k, items, t, dflt, l1, l2, col, rot, widths, lc);
            lemma_follow_split(next, k + 1, items, t, dflt, l1, l2, col, rot, widths, lc);
            lemma_first_some_found(moves(st, k, items[k], t, dflt, l1, l2), next, k + 1, items, t, dflt, l1, l2);
        } else {
            let next = lemma_step_new(st, k, items, t, dflt, l1, l2, col, rot, widths, lc);
            lemma_follow_split(next, k + 1, items, t, dflt, l1, l2, col, rot, widths, lc.push(col[k]));
            lemma_first_some_found(moves(st, k, items[k], t, dflt, l1, l2), next, k + 1, items, t, dflt, l1, l2);
        }
    }
}

/// Whenever the items (each side at least 1) can be split into lanes that fit the sheet
/// — columns for V–H (`t == false`), rows for H–V — each item taking its lane's width in
/// an orientation it allows, the lanes' widths adding up to at most `l1` and each lane's
/// items adding up to at most `l2`, the depth-first search finds a packing.
pub proof fn dfs_finds_a_split(
    items: Seq<PackInstance>,
    t: bool,
    dflt: bool,
    l1: int,
    l2: int,
    col: Seq<int>,
    rot: Seq<bool>,
    widths: Seq<int>,
)
    requires
        sides_positive(items),
        l2 <= i32::MAX,
        fits_in_lanes(items, t, dflt, l1, l2, col, rot, widths),
    ensures
        search_outcome(items, t, true, dflt, l1, l2) is Some,
{
    let init = (Seq::<Lane>::empty(), Seq::<Slot>::empty());
    let lc = Seq::<int>::empty();
    assert(used_len(init.0) == 0);
    assert(follows_split(init, 0, items, t, col, rot, widths, lc));
    lemma_follow_split(init, 0, items, t, dflt, l1, l2, col, rot, widths, lc);
}


/// Under the `Default` ordering the instances keep their order.
proof fn lemma_default_order(s: Seq<PackInstance>)
    ensures
        sorted_instances(s, OrderSeed::Default) == s,
    decreases s.len(),
{
    if s.len() > 0 {
        let d = s.drop_last();
        lemma_default_order(d);
        assert(!(seed_before(OrderSeed::Default))(s.last(), d.last()));
        assert(insert_by(d, s.last(), seed_before(OrderSeed::Default)) == d.push(s.last()));
        assert(d.push(s.last()) =~= s);
    }
}

/// A recorded list and its signature list have the same length.
spec fn acc_ok(acc: (Seq<PackResultView>, Seq<Seq<char>>)) -> bool {
    acc.0.len() == acc.1.len()
}

proof fn lemma_try_add_grows(
    acc: (Seq<PackResultView>, Seq<Seq<char>>),
    o: Option<Seq<crate::guillotine::PlacedRect>>,
    mode: PackMode,
    wp: int,
    hp: int,
)
    requires
        acc_ok(acc),
    ensures
        acc_ok(try_add(acc, o, mode, wp, hp)),
        try_add(acc, o, mode, wp, hp).0.len() >= acc.0.len(),
        (o matches Some(rects) && crate::guillotine::all_inside(rects, wp, hp)
            && crate::guillotine::no_overlap(rects)) ==> try_add(acc, o, mode, wp, hp).0.len() > 0,
{
    if o is Some {
        let rects = o->0;
        if crate::guillotine::all_inside(rects, wp, hp) && crate::guillotine::no_overlap(rects)
            && acc.1.contains(crate::guillotine::signature(rects)) {
            assert(acc.1.len() > 0);
        }
    }
}

proof fn lemma_run_seeds_grows(
    seeds: Seq<OrderSeed>,
    i: int,
    acc: (Seq<PackResultView>, Seq<Seq<char>>),
    instances: Seq<PackInstance>,
    wp: int,
    hp: int,
    dflt: bool,
    max_sol: int,
)
    requires
        acc_ok(acc),
    ensures
        run_seeds(seeds, i, acc, instances, wp, hp, dflt, max_sol).0.len() >= acc.0.len(),
    decreases seeds.len() - i,
{
    if 0 <= i < seeds.len() {
        let ordered = sorted_instances(instances, seeds[i]);
        let use_dfs = instances.len() <= dfs_limit();
        let o1 = crate::search::search_outcome(ordered, false, use_dfs, dflt, wp, hp);
        let o2 = crate::search::search_outcome(ordered, true, use_dfs, dflt, hp, wp);
        lemma_try_add_grows(acc, o1, PackMode::Vh, wp, hp);
        let a1 = try_add(acc, o1, PackMode::Vh, wp, hp);
        lemma_try_add_grows(a1, o2, PackMode::Hv, wp, hp);
        let a = seed_step(acc, instances, seeds[i], wp, hp, dflt);
        if a.0.len() < max_sol {
            lemma_run_seeds_grows(seeds, i + 1, a, instances, wp, hp, dflt, max_sol);
        }
    }
}

/// From ordering `start` on, the packer records something once it reaches ordering `i`,
/// whose V–H search finds a packing on the sheet.
proof fn lemma_run_seeds_finds(
    seeds: Seq<OrderSeed>,
    start: int,
    i: int,
    acc: (Seq<PackResultView>, Seq<Seq<char>>),
    instances: Seq<PackInstance>,
    wp: int,
    hp: int,
    dflt: bool,
    max_sol: int,
)
    requires
        acc_ok(acc),
        max_sol >= 1,
        0 <= start <= i < seeds.len(),
        ({
            let ordered = sorted_instances(instances, seeds[i]);
            let use_dfs = instances.len() <= dfs_limit();
            let o1 = crate::search::search_outcome(ordered, false, use_dfs, dflt, wp, hp);
            let o2 = crate::search::search_outcome(ordered, true, use_dfs, dflt, hp, wp);
            ||| o1 is Some && crate::guillotine::all_inside(o1->0, wp, hp) && crate::guillotine::no_overlap(
                o1->0,
            )
            ||| o2 is Some && crate::guillotine::all_inside(o2->0, wp, hp) && crate::guillotine::no_overlap(
                o2->0,
            )
        }),
    ensures
        run_seeds(seeds, start, acc, instances, wp, hp, dflt, max_sol).0.len() > 0,
    decreases i - start,
{
    let ordered = sorted_instances(instances, seeds[start]);
    let use_dfs = instances.len() <= dfs_limit();
    let o1 = crate::search::search_outcome(ordered, false, use_dfs, dflt, wp, hp);
    let o2 = crate::search::search_outcome(ordered, true, use_dfs, dflt, hp, wp);
    lemma_try_add_grows(acc, o1, PackMode::Vh, wp, hp);
    let a1 = try_add(acc, o1, PackMode::Vh, wp, hp);
    lemma_try_add_grows(a1, o2, PackMode::Hv, wp, hp);
    let a = seed_step(acc, instances, seeds[start], wp, hp, dflt);
    if a.0.len() < max_sol {
        if start < i {
            lemma_run_seeds_finds(seeds, start + 1, i, a, instances, wp, hp, dflt, max_sol);
        } else {
            lemma_run_seeds_grows(seeds, start + 1, a, instances, wp, hp, dflt, max_sol);
        }
    }
}

/// When the orderings tried include the instances' own order (`Default`, as in the
/// default list), there are at most 12 instances (so the search is depth-first), each
/// side at least 1, at least one packing is asked for, and the instances split into
/// lanes that fit the `wp × hp` sheet — columns (`t == false`) or rows (`t == true`) —
/// `pack_multi_stage` returns a packing.
pub proof fn packing_found_for_a_lane_split(
    wp: int,
    hp: int,
    instances: Seq<PackInstance>,
    seeds: Seq<OrderSeed>,
    max_sol: int,
    dflt: bool,
    t: bool,
    col: Seq<int>,
    rot: Seq<bool>,
    widths: Seq<int>,
)
    requires
        sides_positive(instances),
        instances.len() <= dfs_limit(),
        wp <= i32::MAX,
        hp <= i32::MAX,
        max_sol >= 1,
        effective_seeds(seeds).contains(OrderSeed::Default),
        fits_in_lanes(instances, t, dflt, if t { hp } else { wp }, if t { wp } else { hp }, col, rot, widths),
    ensures
        packed_results(wp, hp, instances, seeds, max_sol, dflt).len() > 0,
{
    let eff = effective_seeds(seeds);
    let i = choose|i: int| 0 <= i < eff.len() && eff[i] == OrderSeed::Default;
    let l1 = if t { hp } else { wp };
    let l2 = if t { wp } else { hp };
    lemma_default_order(instances);
    dfs_finds_a_split(instances, t, dflt, l1, l2, col, rot, widths);
    search_layout_is_two_stage(instances, t, true, dflt, l1, l2);
    let empty = (Seq::<PackResultView>::empty(), Seq::<Seq<char>>::empty());
    lemma_run_seeds_finds(eff, 0, i, empty, instances, wp, hp, dflt, max_sol);
    let r = run_seeds(eff, 0, empty, instances, wp, hp, dflt, max_sol).0;
    lemma_sort_len(r, util_before());
}

/// `sum_{c < m} widths[c] * fill_c` after the first `k` items.
spec fn lanes_area(
    items: Seq<PackInstance>,
    t: bool,
    col: Seq<int>,
    rot: Seq<bool>,
    widths: Seq<int>,
    k: int,
    m: int,
) -> int
    decreases m,
{
    if m <= 0 {
        0
    } else {
        lanes_area(items, t, col, rot, widths, k, m - 1) + widths[m - 1] * lane_fill(
            items,
            t,
            col,
            rot,
            k,
            m - 1,
        )
    }
}

proof fn lemma_lanes_area_step(
    items: Seq<PackInstance>,
    t: bool,
    col: Seq<int>,
    rot: Seq<bool>,
    widths: Seq<int>,
    k: int,
    m: int,
)
    requires
        0 <= k,
        0 <= m,
    ensures
        lanes_area(items, t, col, rot, widths, k + 1, m) == lanes_area(items, t, col, rot, widths, k, m)
            + if 0 <= col[k] < m {
            widths[col[k]] * secondary_len(items[k], t, rot[k])
        } else {
            0
        },
    decreases m,
{
    if m > 0 {
        lemma_lanes_area_step(items, t, col, rot, widths, k, m - 1);
        let w = widths[m - 1];
        let a = lane_fill(items, t, col, rot, k, m - 1);
        let b = if col[k] == m - 1 {
            secondary_len(items[k], t, rot[k]) as int
        } else {
            0
        };
        assert(lane_fill(items, t, col, rot, k + 1, m - 1) == a + b);
        assert(w * (a + b) == w * a + w * b) by (nonlinear_arith);
    }
}

proof fn lemma_lanes_area_is_items_area(
    items: Seq<PackInstance>,
    t: bool,
    col: Seq<int>,
    rot: Seq<bool>,
    widths: Seq<int>,
    k: int,
)
    requires
        0 <= k <= items.len(),
        col.len() == items.len(),
        forall|i: int| 0 <= i < items.len() ==> 0 <= #[trigger] col[i] < widths.len(),
        forall|i: int|
            0 <= i < items.len() ==> primary_len(items[i], t, rot[i]) == widths[#[trigger] col[i]],
    ensures
        instance_area_sum(items.take(k)) == lanes_area(items, t, col, rot, widths, k, widths.len() as int),
    decreases k,
{
    if k == 0 {
        assert(items.take(0) =~= Seq::<PackInstance>::empty());
        lemma_lanes_area_empty(items, t, col, rot, widths, widths.len() as int);
    } else {
        lemma_lanes_area_is_items_area(items, t, col, rot, widths, k - 1);
        lemma_lanes_area_step(items, t, col, rot, widths, k - 1, widths.len() as int);
        assert(items.take(k).drop_last() =~= items.take(k - 1));
        assert(items.take(k).last() == items[k - 1]);
        let it = items[k - 1];
        let p = primary_len(it, t, rot[k - 1]) as int;
        let q = secondary_len(it, t, rot[k - 1]) as int;
        assert(p * q == it.w * it.h) by (nonlinear_arith)
            requires
                (p == it.w && q == it.h) || (p == it.h && q == it.w),
        ;
    }
}

proof fn lemma_lanes_area_empty(
    items: Seq<PackInstance>,
    t: bool,
    col: Seq<int>,
    rot: Seq<bool>,
    widths: Seq<int>,
    m: int,
)
    ensures
        lanes_area(items, t, col, rot, widths, 0, m) == 0,
    decreases m,
{
    if m > 0 {
        lemma_lanes_area_empty(items, t, col, rot, widths, m - 1);
    }
}

proof fn lemma_split_area_bound(
    items: Seq<PackInstance>,
    t: bool,
    dflt: bool,
    l1: int,
    l2: int,
    col: Seq<int>,
    rot: Seq<bool>,
    widths: Seq<int>,
    m: int,
)
    requires
        sides_positive(items),
        fits_in_lanes(items, t, dflt, l1, l2, col, rot, widths),
        0 <= m <= widths.len(),
    ensures
        lanes_area(items, t, col, rot, widths, items.len() as int, m) <= l2 * width_sum(widths, m),
    decreases m,
{
    if m > 0 {
        lemma_split_area_bound(items, t, dflt, l1, l2, col, rot, widths, m - 1);
        let w = widths[m - 1];
        let f = lane_fill(items, t, col, rot, items.len() as int, m - 1);
        lemma_fill_nonneg(items, t, col, rot, items.len() as int, m - 1);
        assert(0 <= w);
        assert(f <= l2);
        assert(w * f <= w * l2) by (nonlinear_arith)
            requires
                0 <= w,
                f <= l2,
        ;
        assert(l2 * width_sum(widths, m) == l2 * width_sum(widths, m - 1) + w * l2) by (nonlinear_arith)
            requires
                width_sum(widths, m) == width_sum(widths, m - 1) + w,
        ;
    }
}

/// Items that split into lanes fitting an `l1 × l2` sheet (with `l2 >= 0`) have a total
/// area of at most `l1 * l2`.
pub proof fn split_area_fits(
    items: Seq<PackInstance>,
    t: bool,
    dflt: bool,
    l1: int,
    l2: int,
    col: Seq<int>,
    rot: Seq<bool>,
    widths: Seq<int>,
)
    requires
        sides_positive(items),
        l2 >= 0,
        fits_in_lanes(items, t, dflt, l1, l2, col, rot, widths),
    ensures
        instance_area_sum(items) <= l1 * l2,
{
    let n = items.len() as int;
    lemma_lanes_area_is_items_area(items, t, col, rot, widths, n);
    assert(items.take(n) =~= items);
    lemma_split_area_bound(items, t, dflt, l1, l2, col, rot, widths, widths.len() as int);
    let ws = width_sum(widths, widths.len() as int);
    assert(l2 * ws <= l2 * l1) by (nonlinear_arith)
        requires
            l2 >= 0,
            ws <= l1,
    ;
    assert(l2 * l1 == l1 * l2) by (nonlinear_arith);
}

} // verus!
