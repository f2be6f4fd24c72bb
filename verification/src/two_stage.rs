//! What the packings found are: two-stage layouts (the searches keep their lanes tiling
//! the primary axis from 0, and each lane's items stacked from 0), one rectangle per
//! item in the item's own orientation or turned, and exactly the items' area.

use vstd::prelude::*;
use crate::search::{
    Lane, Slot, used_len, lane_slots, place_in, open_lane, lemma_used_update, lane_moves, new_lane_moves,
    rot_moves, moves, dfs, first_some, greedy, primary_len, secondary_len, flat, allows_rotation,
    slot_rect, state_rects, search_outcome, max0,
};
use crate::guillotine::{
    PackInstance, PlacedRect, key_of, item_of, keys_of, group_of, by_position, sort_by_position,
    stacks_from, all_inside, rect_inside, stages_ok, two_stage_ok, no_overlap, overlap, PackMode,
    PackResultView, OrderSeed, try_add, run_seeds, seed_step, packed_results, effective_seeds,
    sorted_instances, dfs_limit, util_before, area_sum, instance_area_sum,
};
use crate::sorting::{sort_by, insert_by, lemma_sort_elements, lemma_sort_len};

verus! {

/// The pieces of `g`, as (position, length), follow each other from `start` and end at
/// `end`.
pub open spec fn tiles(g: Seq<(i32, i32)>, start: int, end: int) -> bool
    decreases g.len(),
{
    if g.len() == 0 {
        start == end
    } else {
        g[0].0 == start && tiles(g.drop_first(), start + g[0].1, end)
    }
}

/// Every piece has a positive length.
pub open spec fn positive_lengths(g: Seq<(i32, i32)>) -> bool {
    forall|i: int| 0 <= i < g.len() ==> #[trigger] g[i].1 > 0
}

/// The (position, length) of each lane.
pub open spec fn lane_keys(lanes: Seq<Lane>) -> Seq<(i32, i32)> {
    lanes.map_values(|l: Lane| (l.pos, l.len))
}

/// The secondary (position, length) of each slot.
pub open spec fn slot_items(slots: Seq<Slot>) -> Seq<(i32, i32)> {
    slots.map_values(|s: Slot| (s.spos, s.slen))
}

/// A slot sits in an existing lane, at its position and with its length, and has a
/// positive secondary length.
pub open spec fn slot_in_lane(sl: Slot, lanes: Seq<Lane>) -> bool {
    &&& sl.lane < lanes.len()
    &&& sl.ppos == lanes[sl.lane as int].pos
    &&& sl.plen == lanes[sl.lane as int].len
    &&& sl.slen > 0
}

/// The search-state shape behind a two-stage layout: the lanes tile `[0, used]` with
/// positive lengths and `used <= max(l1, 0)`; every slot sits in an existing lane, at its
/// position and with its length, and has a positive secondary length; and the slots of
/// each lane (there is at least one) stack from 0 up to the lane's fill.
pub open spec fn lanes_ok(st: (Seq<Lane>, Seq<Slot>), l1: int) -> bool {
    let lanes = st.0;
    let slots = st.1;
    &&& tiles(lane_keys(lanes), 0, used_len(lanes))
    &&& positive_lengths(lane_keys(lanes))
    &&& used_len(lanes) <= max0(l1)
    &&& forall|j: int| 0 <= j < slots.len() ==> slot_in_lane(#[trigger] slots[j], lanes)
    &&& forall|k: int|
        0 <= k < lanes.len() ==> tiles(
            slot_items(#[trigger] lane_slots(slots, k)),
            0,
            lanes[k].fill as int,
        ) && lane_slots(slots, k).len() > 0
}

/// Appending a piece that starts at the end extends the tiling.
pub proof fn lemma_tiles_push(g: Seq<(i32, i32)>, start: int, end: int, x: (i32, i32))
    requires
        tiles(g, start, end),
        x.0 == end,
    ensures
        tiles(g.push(x), start, end + x.1),
    decreases g.len(),
{
    if g.len() == 0 {
        assert(g.push(x)[0] == x);
        assert(g.push(x).drop_first() =~= Seq::<(i32, i32)>::empty());
        assert(tiles(Seq::<(i32, i32)>::empty(), start + x.1, end + x.1));
    } else {
        assert(g.push(x)[0] == g[0]);
        assert(g.push(x).drop_first() =~= g.drop_first().push(x));
        lemma_tiles_push(g.drop_first(), start + g[0].1, end, x);
    }
}

/// With positive lengths, positions strictly increase from `start`, and the end is at
/// least the start.
pub proof fn lemma_tiles_increasing(g: Seq<(i32, i32)>, start: int, end: int)
    requires
        tiles(g, start, end),
        positive_lengths(g),
    ensures
        start <= end,
        forall|i: int| 0 <= i < g.len() ==> start <= #[trigger] g[i].0 && g[i].0 + g[i].1 <= end,
        forall|i: int, j: int| 0 <= i < j < g.len() ==> (#[trigger] g[i]).0 < (#[trigger] g[j]).0,
        g.len() > 0 ==> g.last().0 + g.last().1 == end,
    decreases g.len(),
{
    if g.len() > 0 {
        let d = g.drop_first();
        assert forall|i: int| 0 <= i < d.len() implies #[trigger] d[i].1 > 0 by {
            assert(d[i] == g[i + 1]);
        }
        lemma_tiles_increasing(d, start + g[0].1, end);
        assert(g[0].1 > 0);
        assert forall|i: int| 0 <= i < g.len() implies start <= #[trigger] g[i].0 && g[i].0 + g[i].1
            <= end by {
            if i > 0 {
                assert(g[i] == d[i - 1]);
            }
        }
        assert forall|i: int, j: int| 0 <= i < j < g.len() implies (#[trigger] g[i]).0 < (
        #[trigger] g[j]).0 by {
            assert(g[j] == d[j - 1]);
            if i > 0 {
                assert(g[i] == d[i - 1]);
            }
        }
        if d.len() > 0 {
            assert(g.last() == d.last());
        } else {
            assert(g.last() == g[0]);
            assert(tiles(d, start + g[0].1, end));
            assert(d.len() == 0);
            assert(start + g[0].1 == end);
        }
    }
}

proof fn lemma_lane_slots_push_same(slots: Seq<Slot>, s: Slot)
    ensures
        lane_slots(slots.push(s), s.lane as int) == lane_slots(slots, s.lane as int).push(s),
        forall|k: int| k != s.lane ==> #[trigger] lane_slots(slots.push(s), k) == lane_slots(slots, k),
{
    assert(slots.push(s).drop_last() =~= slots);
    assert forall|k: int| k != s.lane implies #[trigger] lane_slots(slots.push(s), k) == lane_slots(
        slots,
        k,
    ) by {
        assert(slots.push(s).drop_last() =~= slots);
    }
}

/// The slots of a lane are slots of the state, in that lane.
pub proof fn lemma_lane_slots_members(slots: Seq<Slot>, l: int)
    ensures
        forall|i: int|
            0 <= i < lane_slots(slots, l).len() ==> slots.contains(#[trigger] lane_slots(slots, l)[i])
                && lane_slots(slots, l)[i].lane == l,
    decreases slots.len(),
{
    if slots.len() > 0 {
        let d = slots.drop_last();
        lemma_lane_slots_members(d, l);
        let ld = lane_slots(d, l);
        let ls = lane_slots(slots, l);
        assert forall|i: int| 0 <= i < ls.len() implies slots.contains(#[trigger] ls[i]) && ls[i].lane
            == l by {
            if i < ld.len() {
                assert(ls[i] == ld[i]);
                let m = choose|m: int| 0 <= m < d.len() && d[m] == ld[i];
                assert(slots[m] == d[m]);
            } else {
                assert(ls[i] == slots[slots.len() - 1]);
            }
        }
    }
}

/// Every slot of a lane has a positive secondary length.
proof fn lemma_lane_items_positive(st: (Seq<Lane>, Seq<Slot>), l1: int, l: int)
    requires
        lanes_ok(st, l1),
    ensures
        positive_lengths(slot_items(lane_slots(st.1, l))),
{
    lemma_lane_slots_members(st.1, l);
    let ls = lane_slots(st.1, l);
    assert forall|i: int| 0 <= i < slot_items(ls).len() implies #[trigger] slot_items(ls)[i].1 > 0 by {
        let m = choose|m: int| 0 <= m < st.1.len() && st.1[m] == ls[i];
        assert(slot_in_lane(st.1[m], st.0));
    }
}

/// A lane index beyond every slot's lane has no slots.
proof fn lemma_lane_slots_empty(slots: Seq<Slot>, k: int)
    requires
        forall|j: int| 0 <= j < slots.len() ==> (#[trigger] slots[j]).lane < k,
    ensures
        lane_slots(slots, k).len() == 0,
    decreases slots.len(),
{
    if slots.len() > 0 {
        let d = slots.drop_last();
        assert forall|j: int| 0 <= j < d.len() implies (#[trigger] d[j]).lane < k by {
            assert(d[j] == slots[j]);
        }
        lemma_lane_slots_empty(d, k);
        assert(slots.last() == slots[slots.len() - 1]);
    }
}

/// Putting an item on top of a lane keeps the shape.
pub proof fn lemma_place_in_ok(
    st: (Seq<Lane>, Seq<Slot>),
    ci: int,
    k: int,
    p: i32,
    s: i32,
    rot: bool,
    l1: int,
    l2: int,
)
    requires
        lanes_ok(st, l1),
        0 <= ci < st.0.len(),
        st.0[ci].len == p,
        st.0[ci].fill + s <= l2,
        l2 <= i32::MAX,
        s > 0,
        st.0.len() <= usize::MAX,
        fills_ok(st.0, l2),
    ensures
        lanes_ok(place_in(st, ci, k, p, s, rot), l1),
        fills_ok(place_in(st, ci, k, p, s, rot).0, l2),
{
    let lanes = st.0;
    let slots = st.1;
    let lane = lanes[ci];
    let r = place_in(st, ci, k, p, s, rot);
    let nl = r.0;
    let ns = r.1;
    let new_slot = ns.last();
    assert(ns == slots.push(new_slot));
    lemma_lane_items_positive(st, l1, ci);
    lemma_tiles_increasing(slot_items(lane_slots(slots, ci)), 0, lane.fill as int);
    assert(lane.fill >= 0);
    assert(nl[ci].fill == lane.fill + s);
    assert forall|m: int| 0 <= m < nl.len() implies #[trigger] nl[m].fill <= l2 by {
        if m != ci {
            assert(nl[m] == lanes[m]);
        }
    }
    assert(lane_keys(nl) =~= lane_keys(lanes));
    lemma_used_update(lanes, ci, nl[ci]);
    lemma_lane_slots_push_same(slots, new_slot);
    assert forall|j: int| 0 <= j < ns.len() implies slot_in_lane(#[trigger] ns[j], nl) by {
        if j < slots.len() {
            assert(ns[j] == slots[j]);
            assert(slot_in_lane(slots[j], lanes));
            let li = slots[j].lane as int;
            assert(nl[li].pos == lanes[li].pos && nl[li].len == lanes[li].len);
        } else {
            assert(ns[j] == new_slot);
            assert(new_slot.lane as int == ci);
        }
    }
    assert forall|m: int| 0 <= m < nl.len() implies tiles(
        slot_items(#[trigger] lane_slots(ns, m)),
        0,
        nl[m].fill as int,
    ) && lane_slots(ns, m).len() > 0 by {
        if m == ci {
            assert(slot_items(lane_slots(ns, m)) =~= slot_items(lane_slots(slots, m)).push(
                (new_slot.spos, new_slot.slen),
            ));
            lemma_tiles_push(slot_items(lane_slots(slots, m)), 0, lane.fill as int, (new_slot.spos, new_slot.slen));
        } else {
            assert(nl[m] == lanes[m]);
        }
    }
}

/// Opening a new lane after the used length keeps the shape.
pub proof fn lemma_open_lane_ok(
    st: (Seq<Lane>, Seq<Slot>),
    k: int,
    p: i32,
    s: i32,
    rot: bool,
    l1: int,
    l2: int,
)
    requires
        lanes_ok(st, l1),
        used_len(st.0) + p <= l1,
        s <= l2,
        fills_ok(st.0, l2),
        l1 <= i32::MAX,
        p > 0,
        s > 0,
        st.0.len() < usize::MAX,
    ensures
        lanes_ok(open_lane(st, k, p, s, rot), l1),
        fills_ok(open_lane(st, k, p, s, rot).0, l2),
{
    let lanes = st.0;
    let slots = st.1;
    let r = open_lane(st, k, p, s, rot);
    let nl = r.0;
    let ns = r.1;
    let new_slot = ns.last();
    let u = used_len(lanes);
    lemma_tiles_increasing(lane_keys(lanes), 0, u);
    assert(0 <= u);
    assert(ns == slots.push(new_slot));
    assert(nl == lanes.push(Lane { pos: u as i32, len: p, fill: s }));
    assert(nl.drop_last() =~= lanes);
    assert forall|m: int| 0 <= m < nl.len() implies #[trigger] nl[m].fill <= l2 by {
        if m < lanes.len() {
            assert(nl[m] == lanes[m]);
        }
    }
    assert(used_len(nl) == u + p);
    assert(lane_keys(nl) =~= lane_keys(lanes).push((u as i32, p)));
    lemma_tiles_push(lane_keys(lanes), 0, u, (u as i32, p));
    lemma_lane_slots_push_same(slots, new_slot);
    lemma_lane_slots_empty(slots, lanes.len() as int);
    assert forall|j: int| 0 <= j < ns.len() implies slot_in_lane(#[trigger] ns[j], nl) by {
        if j < slots.len() {
            assert(ns[j] == slots[j]);
            assert(slot_in_lane(slots[j], lanes));
            assert(nl[slots[j].lane as int] == lanes[slots[j].lane as int]);
        } else {
            assert(ns[j] == new_slot);
        }
    }
    assert forall|m: int| 0 <= m < nl.len() implies tiles(
        slot_items(#[trigger] lane_slots(ns, m)),
        0,
        nl[m].fill as int,
    ) && lane_slots(ns, m).len() > 0 by {
        if m == lanes.len() {
            assert(lane_slots(slots, m) =~= Seq::<Slot>::empty());
            assert(lane_slots(ns, m) =~= seq![new_slot]);
            assert(slot_items(lane_slots(ns, m)) =~= seq![(0i32, s)]);
            assert(seq![(0i32, s)].drop_first() =~= Seq::<(i32, i32)>::empty());
            assert(tiles(Seq::<(i32, i32)>::empty(), s as int, s as int));
            assert(nl[m].fill == s);
        } else {
            assert(nl[m] == lanes[m]);
        }
    }
    assert forall|i: int| 0 <= i < lane_keys(nl).len() implies #[trigger] lane_keys(nl)[i].1 > 0 by {
        if i < lanes.len() {
            assert(lane_keys(nl)[i] == lane_keys(lanes)[i]);
        }
    }
}

/// Every lane is filled no further than the secondary limit.
pub open spec fn fills_ok(lanes: Seq<Lane>, l2: int) -> bool {
    forall|k: int| 0 <= k < lanes.len() ==> #[trigger] lanes[k].fill <= l2
}

/// A reachable state: the shape holds, lanes are filled within the secondary limit, one
/// slot per placed item, and no more lanes than slots.
pub open spec fn reach_ok(
    st: (Seq<Lane>, Seq<Slot>),
    k: int,
    l1: int,
    l2: int,
    items: Seq<PackInstance>,
    t: bool,
    dflt: bool,
) -> bool {
    &&& lanes_ok(st, l1)
    &&& fills_ok(st.0, l2)
    &&& st.1.len() == k
    &&& st.0.len() <= st.1.len()
    &&& slots_match(st.1, items, t, dflt)
}

/// Every item has both sides at least 1.
pub open spec fn sides_positive(items: Seq<PackInstance>) -> bool {
    forall|i: int| 0 <= i < items.len() ==> #[trigger] items[i].w >= 1 && items[i].h >= 1
}

/// Move `m` from `st` adds one slot for item `k`, of lengths `p` and `s`, turned when
/// `rot`.
pub open spec fn pushes_slot(
    st: (Seq<Lane>, Seq<Slot>),
    m: (Seq<Lane>, Seq<Slot>),
    k: int,
    p: i32,
    s: i32,
    rot: bool,
) -> bool {
    &&& m.1 == st.1.push(m.1.last())
    &&& m.1.last().idx == k as usize
    &&& m.1.last().plen == p
    &&& m.1.last().slen == s
    &&& m.1.last().rotated == rot
}

/// Slot `sl` holds `inst` in its orientation, turned only when the instance allows it.
pub open spec fn slot_holds(sl: Slot, inst: PackInstance, t: bool, dflt: bool) -> bool {
    &&& sl.plen == primary_len(inst, t, sl.rotated)
    &&& sl.slen == secondary_len(inst, t, sl.rotated)
    &&& sl.rotated ==> allows_rotation(inst, dflt)
}

/// Slot `j` holds item `j`, with the item's area.
pub open spec fn slots_match(slots: Seq<Slot>, items: Seq<PackInstance>, t: bool, dflt: bool) -> bool {
    forall|j: int|
        0 <= j < slots.len() ==> (#[trigger] slots[j]).idx == j && slots[j].plen * slots[j].slen
            == items[j].w * items[j].h && slot_holds(slots[j], items[j], t, dflt)
}

proof fn lemma_lane_moves_ok(
    st: (Seq<Lane>, Seq<Slot>),
    k: int,
    p: i32,
    s: i32,
    rot: bool,
    l1: int,
    l2: int,
    ci: int,
)
    requires
        lanes_ok(st, l1),
        fills_ok(st.0, l2),
        l2 <= i32::MAX,
        s > 0,
        st.0.len() <= usize::MAX,
        ci >= 0,
    ensures
        forall|i: int|
            0 <= i < lane_moves(st, k, p, s, rot, l2, ci).len() ==> lanes_ok(
                #[trigger] lane_moves(st, k, p, s, rot, l2, ci)[i],
                l1,
            ) && fills_ok(lane_moves(st, k, p, s, rot, l2, ci)[i].0, l2) && lane_moves(st, k, p, s, rot, l2, ci)[i].1.len() == st.1.len() + 1
                && lane_moves(st, k, p, s, rot, l2, ci)[i].0.len() == st.0.len() && pushes_slot(
                st,
                lane_moves(st, k, p, s, rot, l2, ci)[i],
                k,
                p,
                s,
                rot,
            ),
    decreases st.0.len() - ci,
{
    if ci < st.0.len() {
        lemma_lane_moves_ok(st, k, p, s, rot, l1, l2, ci + 1);
        let rest = lane_moves(st, k, p, s, rot, l2, ci + 1);
        let all = lane_moves(st, k, p, s, rot, l2, ci);
        if st.0[ci].len == p && st.0[ci].fill + s <= l2 {
            lemma_place_in_ok(st, ci, k, p, s, rot, l1, l2);
            let pm = place_in(st, ci, k, p, s, rot);
            assert(pm.1 =~= st.1.push(pm.1.last()));
            assert forall|i: int| 0 <= i < all.len() implies lanes_ok(#[trigger] all[i], l1)
                && fills_ok(all[i].0, l2) && all[i].1.len() == st.1.len() + 1 && all[i].0.len() == st.0.len() && pushes_slot(
                st,
                all[i],
                k,
                p,
                s,
                rot,
            ) by {
                if i > 0 {
                    assert(all[i] == rest[i - 1]);
                } else {
                    assert(all[i] == pm);
                }
            }
        }
    }
}

proof fn lemma_rot_moves_ok(
    st: (Seq<Lane>, Seq<Slot>),
    k: int,
    inst: PackInstance,
    t: bool,
    rot: bool,
    l1: int,
    l2: int,
)
    requires
        lanes_ok(st, l1),
        fills_ok(st.0, l2),
        l1 <= i32::MAX,
        l2 <= i32::MAX,
        inst.w >= 1,
        inst.h >= 1,
        st.0.len() < usize::MAX,
    ensures
        forall|i: int|
            0 <= i < rot_moves(st, k, inst, t, rot, l1, l2).len() ==> lanes_ok(
                #[trigger] rot_moves(st, k, inst, t, rot, l1, l2)[i],
                l1,
            ) && fills_ok(rot_moves(st, k, inst, t, rot, l1, l2)[i].0, l2) && rot_moves(st, k, inst, t, rot, l1, l2)[i].1.len() == st.1.len() + 1
                && rot_moves(st, k, inst, t, rot, l1, l2)[i].0.len() <= st.0.len() + 1 && pushes_slot(
                st,
                rot_moves(st, k, inst, t, rot, l1, l2)[i],
                k,
                primary_len(inst, t, rot),
                secondary_len(inst, t, rot),
                rot,
            ),
{
    let p = primary_len(inst, t, rot);
    let s = secondary_len(inst, t, rot);
    lemma_lane_moves_ok(st, k, p, s, rot, l1, l2, 0);
    let a = lane_moves(st, k, p, s, rot, l2, 0);
    let b = new_lane_moves(st, k, p, s, rot, l1, l2);
    if used_len(st.0) + p <= l1 && s <= l2 {
        lemma_open_lane_ok(st, k, p, s, rot, l1, l2);
    }
    let all = rot_moves(st, k, inst, t, rot, l1, l2);
    let om = open_lane(st, k, p, s, rot);
    assert(om.1 =~= st.1.push(om.1.last()));
    assert forall|i: int| 0 <= i < all.len() implies lanes_ok(#[trigger] all[i], l1) && fills_ok(
        all[i].0,
        l2,
    ) && all[i].1.len() == st.1.len() + 1 && all[i].0.len() <= st.0.len() + 1 && pushes_slot(
        st,
        all[i],
        k,
        p,
        s,
        rot,
    ) by {
        if i < a.len() {
            assert(all[i] == a[i]);
        } else {
            assert(all[i] == b[i - a.len()]);
            assert(b[i - a.len()] == om);
        }
    }
}

/// Every move keeps the shape, adds one slot, and adds at most one lane.
pub proof fn lemma_moves_ok(
    st: (Seq<Lane>, Seq<Slot>),
    k: int,
    inst: PackInstance,
    t: bool,
    dflt: bool,
    l1: int,
    l2: int,
)
    requires
        lanes_ok(st, l1),
        fills_ok(st.0, l2),
        l1 <= i32::MAX,
        l2 <= i32::MAX,
        inst.w >= 1,
        inst.h >= 1,
        st.0.len() < usize::MAX,
    ensures
        forall|i: int|
            0 <= i < moves(st, k, inst, t, dflt, l1, l2).len() ==> lanes_ok(
                #[trigger] moves(st, k, inst, t, dflt, l1, l2)[i],
                l1,
            ) && fills_ok(moves(st, k, inst, t, dflt, l1, l2)[i].0, l2) && moves(st, k, inst, t, dflt, l1, l2)[i].1.len() == st.1.len() + 1
                && moves(st, k, inst, t, dflt, l1, l2)[i].0.len() <= st.0.len() + 1 && pushes_slot(
                st,
                moves(st, k, inst, t, dflt, l1, l2)[i],
                k,
                moves(st, k, inst, t, dflt, l1, l2)[i].1.last().plen,
                moves(st, k, inst, t, dflt, l1, l2)[i].1.last().slen,
                moves(st, k, inst, t, dflt, l1, l2)[i].1.last().rotated,
            ) && slot_holds(moves(st, k, inst, t, dflt, l1, l2)[i].1.last(), inst, t, dflt),
{
    lemma_rot_moves_ok(st, k, inst, t, false, l1, l2);
    lemma_rot_moves_ok(st, k, inst, t, true, l1, l2);
    let a = rot_moves(st, k, inst, t, false, l1, l2);
    let b = rot_moves(st, k, inst, t, true, l1, l2);
    let all = moves(st, k, inst, t, dflt, l1, l2);
    assert forall|i: int| 0 <= i < all.len() implies lanes_ok(#[trigger] all[i], l1) && fills_ok(
        all[i].0,
        l2,
    ) && all[i].1.len() == st.1.len() + 1 && all[i].0.len() <= st.0.len() + 1 && pushes_slot(
        st,
        all[i],
        k,
        all[i].1.last().plen,
        all[i].1.last().slen,
        all[i].1.last().rotated,
    ) && slot_holds(all[i].1.last(), inst, t, dflt) by {
        if i < a.len() {
            assert(all[i] == a[i]);
        } else {
            assert(all[i] == b[i - a.len()]);
            assert(allows_rotation(inst, dflt));
        }
    }
}

proof fn lemma_moves_reach(
    st: (Seq<Lane>, Seq<Slot>),
    k: int,
    items: Seq<PackInstance>,
    t: bool,
    dflt: bool,
    l1: int,
    l2: int,
)
    requires
        reach_ok(st, k, l1, l2, items, t, dflt),
        0 <= k < items.len(),
        items.len() <= usize::MAX,
        sides_positive(items),
        l1 <= i32::MAX,
        l2 <= i32::MAX,
    ensures
        forall|i: int|
            0 <= i < moves(st, k, items[k], t, dflt, l1, l2).len() ==> reach_ok(
                #[trigger] moves(st, k, items[k], t, dflt, l1, l2)[i],
                k + 1,
                l1,
                l2,
                items,
                t,
                dflt,
            ),
{
    assert(items[k].w >= 1);
    lemma_moves_ok(st, k, items[k], t, dflt, l1, l2);
    let ms = moves(st, k, items[k], t, dflt, l1, l2);
    assert forall|i: int| 0 <= i < ms.len() implies reach_ok(#[trigger] ms[i], k + 1, l1, l2, items, t, dflt) by {
        let m = ms[i];
        let x = m.1.last();
        assert(slot_holds(x, items[k], t, dflt));
        assert(x.plen * x.slen == items[k].w * items[k].h) by (nonlinear_arith)
            requires
                (x.plen == items[k].w && x.slen == items[k].h) || (x.plen == items[k].h && x.slen
                    == items[k].w),
        ;
        assert forall|j: int| 0 <= j < m.1.len() implies (#[trigger] m.1[j]).idx == j && m.1[j].plen
            * m.1[j].slen == items[j].w * items[j].h && slot_holds(m.1[j], items[j], t, dflt) by {
            if j < st.1.len() {
                assert(m.1[j] == st.1[j]);
            } else {
                assert(m.1[j] == m.1.last());
            }
        }
    }
}

/// The depth-first search only ends in shaped states.
pub proof fn lemma_dfs_ok(
    st: (Seq<Lane>, Seq<Slot>),
    k: int,
    items: Seq<PackInstance>,
    t: bool,
    dflt: bool,
    l1: int,
    l2: int,
)
    requires
        reach_ok(st, k, l1, l2, items, t, dflt),
        0 <= k <= items.len(),
        items.len() <= usize::MAX,
        sides_positive(items),
        l1 <= i32::MAX,
        l2 <= i32::MAX,
    ensures
        dfs(st, k, items, t, dflt, l1, l2) matches Some(r) ==> lanes_ok(r, l1) && fills_ok(r.0, l2) && slots_match(r.1, items, t, dflt)
            && r.1.len() == items.len(),
    decreases items.len() - k, 0int,
{
    if k < items.len() {
        lemma_moves_reach(st, k, items, t, dflt, l1, l2);
        lemma_first_some_ok(moves(st, k, items[k], t, dflt, l1, l2), k + 1, items, t, dflt, l1, l2);
    }
}

proof fn lemma_first_some_ok(
    ms: Seq<(Seq<Lane>, Seq<Slot>)>,
    k: int,
    items: Seq<PackInstance>,
    t: bool,
    dflt: bool,
    l1: int,
    l2: int,
)
    requires
        forall|i: int| 0 <= i < ms.len() ==> reach_ok(#[trigger] ms[i], k, l1, l2, items, t, dflt),
        0 <= k <= items.len(),
        items.len() <= usize::MAX,
        sides_positive(items),
        l1 <= i32::MAX,
        l2 <= i32::MAX,
    ensures
        first_some(ms, k, items, t, dflt, l1, l2) matches Some(r) ==> lanes_ok(r, l1) && fills_ok(r.0, l2) && slots_match(
            r.1,
            items,
            t,
            dflt,
        ) && r.1.len() == items.len(),
    decreases items.len() - k, ms.len(),
{
    if ms.len() > 0 {
        assert(reach_ok(ms[0], k, l1, l2, items, t, dflt));
        lemma_dfs_ok(ms[0], k, items, t, dflt, l1, l2);
        let d = ms.drop_first();
        assert forall|i: int| 0 <= i < d.len() implies reach_ok(#[trigger] d[i], k, l1, l2, items, t, dflt) by {
            assert(d[i] == ms[i + 1]);
        }
        lemma_first_some_ok(d, k, items, t, dflt, l1, l2);
    }
}

/// The greedy search only ends in shaped states.
pub proof fn lemma_greedy_ok(
    st: (Seq<Lane>, Seq<Slot>),
    k: int,
    items: Seq<PackInstance>,
    t: bool,
    dflt: bool,
    l1: int,
    l2: int,
)
    requires
        reach_ok(st, k, l1, l2, items, t, dflt),
        0 <= k <= items.len(),
        items.len() <= usize::MAX,
        sides_positive(items),
        l1 <= i32::MAX,
        l2 <= i32::MAX,
    ensures
        greedy(st, k, items, t, dflt, l1, l2) matches Some(r) ==> lanes_ok(r, l1) && fills_ok(r.0, l2) && slots_match(r.1, items, t, dflt)
            && r.1.len() == items.len(),
    decreases items.len() - k,
{
    if k < items.len() {
        lemma_moves_reach(st, k, items, t, dflt, l1, l2);
        let ms = moves(st, k, items[k], t, dflt, l1, l2);
        if ms.len() > 0 {
            lemma_greedy_ok(ms[0], k + 1, items, t, dflt, l1, l2);
        }
    }
}

// ---------------------------------------------------------------------------
// From a shaped state to a two-stage layout
// ---------------------------------------------------------------------------

/// A tiling that ends by `limit` stacks from its start within `limit`.
pub proof fn lemma_tiles_stack(g: Seq<(i32, i32)>, start: int, end: int, limit: int)
    requires
        tiles(g, start, end),
        end <= limit,
    ensures
        stacks_from(g, start, limit),
    decreases g.len(),
{
    if g.len() > 0 {
        lemma_tiles_stack(g.drop_first(), start + g[0].1, end, limit);
    }
}

/// Pairs already in strictly increasing position are their own sort by position.
pub proof fn lemma_sorted_by_position(g: Seq<(i32, i32)>)
    requires
        forall|i: int, j: int| 0 <= i < j < g.len() ==> (#[trigger] g[i]).0 < (#[trigger] g[j]).0,
    ensures
        sort_by_position(g) == g,
    decreases g.len(),
{
    if g.len() > 0 {
        let d = g.drop_last();
        assert forall|i: int, j: int| 0 <= i < j < d.len() implies (#[trigger] d[i]).0 < (
        #[trigger] d[j]).0 by {
            assert(d[i] == g[i] && d[j] == g[j]);
        }
        lemma_sorted_by_position(d);
        if d.len() > 0 {
            assert(d.last() == g[g.len() - 2]);
            assert(!(by_position())(g.last(), d.last()));
            assert(d.push(g.last()) =~= g);
        } else {
            assert(seq![g.last()] =~= g);
        }
    }
}

proof fn lemma_keys_append(s: Seq<PlacedRect>, c: Seq<PlacedRect>, t: bool, key: (i32, i32))
    requires
        c.len() > 0,
        forall|i: int| 0 <= i < c.len() ==> key_of(#[trigger] c[i], t) == key,
        !keys_of(s, t).contains(key),
    ensures
        keys_of(s + c, t) == keys_of(s, t).push(key),
    decreases c.len(),
{
    let sc = s + c;
    assert(sc.last() == c[c.len() - 1]);
    if c.len() == 1 {
        assert(sc.drop_last() =~= s);
    } else {
        let cd = c.drop_last();
        assert forall|i: int| 0 <= i < cd.len() implies key_of(#[trigger] cd[i], t) == key by {
            assert(cd[i] == c[i]);
        }
        lemma_keys_append(s, cd, t, key);
        assert(sc.drop_last() =~= s + cd);
        assert(keys_of(s, t).push(key)[keys_of(s, t).len() as int] == key);
    }
}

proof fn lemma_group_append(s: Seq<PlacedRect>, c: Seq<PlacedRect>, t: bool, key: (i32, i32))
    ensures
        group_of(s + c, t, key) == group_of(s, t, key) + group_of(c, t, key),
    decreases c.len(),
{
    if c.len() == 0 {
        assert(s + c =~= s);
        assert(group_of(s, t, key) + group_of(c, t, key) =~= group_of(s, t, key));
    } else {
        let cd = c.drop_last();
        lemma_group_append(s, cd, t, key);
        assert((s + c).drop_last() =~= s + cd);
        assert((s + c).last() == c.last());
        if key_of(c.last(), t) == key {
            assert(group_of(s, t, key) + group_of(c, t, key) =~= (group_of(s, t, key) + group_of(cd, t, key)).push(
                item_of(c.last(), t),
            ));
        }
    }
}

proof fn lemma_group_uniform(c: Seq<PlacedRect>, t: bool, k0: (i32, i32), key: (i32, i32))
    requires
        forall|i: int| 0 <= i < c.len() ==> key_of(#[trigger] c[i], t) == k0,
    ensures
        group_of(c, t, key) == if key == k0 {
            c.map_values(|r: PlacedRect| item_of(r, t))
        } else {
            Seq::<(i32, i32)>::empty()
        },
    decreases c.len(),
{
    if c.len() > 0 {
        let cd = c.drop_last();
        assert forall|i: int| 0 <= i < cd.len() implies key_of(#[trigger] cd[i], t) == k0 by {
            assert(cd[i] == c[i]);
        }
        lemma_group_uniform(cd, t, k0, key);
        assert(c.last() == c[c.len() - 1]);
        if key == k0 {
            assert(c.map_values(|r: PlacedRect| item_of(r, t)) =~= cd.map_values(
                |r: PlacedRect| item_of(r, t),
            ).push(item_of(c.last(), t)));
        }
    } else {
        assert(c.map_values(|r: PlacedRect| item_of(r, t)) =~= Seq::<(i32, i32)>::empty());
    }
}

/// The rectangles of lane `k`.
pub open spec fn lane_rects(st: (Seq<Lane>, Seq<Slot>), k: int, t: bool, items: Seq<PackInstance>) -> Seq<
    PlacedRect,
> {
    lane_slots(st.1, k).map_values(|sl: Slot| slot_rect(sl, t, items))
}

/// The rectangles of lanes `0..n`.
pub open spec fn rects_upto(st: (Seq<Lane>, Seq<Slot>), n: int, t: bool, items: Seq<PackInstance>) -> Seq<
    PlacedRect,
> {
    flat(st.1, n).map_values(|sl: Slot| slot_rect(sl, t, items))
}

proof fn lemma_rects_upto_step(st: (Seq<Lane>, Seq<Slot>), n: int, t: bool, items: Seq<PackInstance>)
    requires
        n >= 0,
    ensures
        rects_upto(st, n + 1, t, items) == rects_upto(st, n, t, items) + lane_rects(st, n, t, items),
{
    assert(flat(st.1, n + 1) == flat(st.1, n) + lane_slots(st.1, n));
    assert(rects_upto(st, n + 1, t, items) =~= rects_upto(st, n, t, items) + lane_rects(st, n, t, items));
}

/// The rectangles of a lane all have the lane's key and, in order, the lane's items.
proof fn lemma_lane_rects(st: (Seq<Lane>, Seq<Slot>), l1: int, k: int, t: bool, items: Seq<PackInstance>)
    requires
        lanes_ok(st, l1),
        0 <= k < st.0.len(),
    ensures
        lane_rects(st, k, t, items).len() > 0,
        forall|i: int|
            0 <= i < lane_rects(st, k, t, items).len() ==> key_of(
                #[trigger] lane_rects(st, k, t, items)[i],
                t,
            ) == lane_keys(st.0)[k],
        lane_rects(st, k, t, items).map_values(|r: PlacedRect| item_of(r, t)) == slot_items(
            lane_slots(st.1, k),
        ),
{
    let ls = lane_slots(st.1, k);
    let lr = lane_rects(st, k, t, items);
    lemma_lane_slots_members(st.1, k);
    assert forall|i: int| 0 <= i < lr.len() implies key_of(#[trigger] lr[i], t) == lane_keys(st.0)[k] by {
        let m = choose|m: int| 0 <= m < st.1.len() && st.1[m] == ls[i];
        assert(slot_in_lane(st.1[m], st.0));
        assert(lr[i] == slot_rect(ls[i], t, items));
    }
    assert(lr.map_values(|r: PlacedRect| item_of(r, t)) =~= slot_items(ls));
}

/// Lane keys, in lane order, strictly increase in position.
proof fn lemma_lane_keys_increasing(st: (Seq<Lane>, Seq<Slot>), l1: int)
    requires
        lanes_ok(st, l1),
    ensures
        forall|i: int, j: int|
            0 <= i < j < lane_keys(st.0).len() ==> (#[trigger] lane_keys(st.0)[i]).0 < (
            #[trigger] lane_keys(st.0)[j]).0,
{
    lemma_tiles_increasing(lane_keys(st.0), 0, used_len(st.0));
}

proof fn lemma_rects_upto(
    st: (Seq<Lane>, Seq<Slot>),
    l1: int,
    n: int,
    t: bool,
    items: Seq<PackInstance>,
)
    requires
        lanes_ok(st, l1),
        0 <= n <= st.0.len(),
    ensures
        keys_of(rects_upto(st, n, t, items), t) == lane_keys(st.0).take(n),
        forall|k: int|
            0 <= k < st.0.len() ==> group_of(rects_upto(st, n, t, items), t, #[trigger] lane_keys(st.0)[k])
                == if k < n {
                slot_items(lane_slots(st.1, k))
            } else {
                Seq::<(i32, i32)>::empty()
            },
        forall|k: int, i: int|
            0 <= k < n && 0 <= i < lane_rects(st, k, t, items).len() ==> rects_upto(
                st,
                n,
                t,
                items,
            ).contains(#[trigger] lane_rects(st, k, t, items)[i]),
    decreases n,
{
    let keys = lane_keys(st.0);
    lemma_lane_keys_increasing(st, l1);
    if n == 0 {
        assert(rects_upto(st, 0, t, items) =~= Seq::<PlacedRect>::empty());
        assert(keys.take(0) =~= Seq::<(i32, i32)>::empty());
    } else {
        let m = n - 1;
        lemma_rects_upto(st, l1, m, t, items);
        lemma_rects_upto_step(st, m, t, items);
        lemma_lane_rects(st, l1, m, t, items);
        let prev = rects_upto(st, m, t, items);
        let c = lane_rects(st, m, t, items);
        assert(!keys.take(m).contains(keys[m])) by {
            if keys.take(m).contains(keys[m]) {
                let i = choose|i: int| 0 <= i < m && keys.take(m)[i] == keys[m];
                assert(keys[i] == keys.take(m)[i]);
                assert(keys[i].0 < keys[m].0);
            }
        }
        lemma_keys_append(prev, c, t, keys[m]);
        assert(keys.take(m).push(keys[m]) =~= keys.take(n));
        assert forall|k: int| 0 <= k < st.0.len() implies group_of(
            rects_upto(st, n, t, items),
            t,
            #[trigger] keys[k],
        ) == if k < n {
            slot_items(lane_slots(st.1, k))
        } else {
            Seq::<(i32, i32)>::empty()
        } by {
            lemma_group_append(prev, c, t, keys[k]);
            lemma_group_uniform(c, t, keys[m], keys[k]);
            if k != m {
                if k < m {
                    assert(keys[k].0 < keys[m].0);
                } else {
                    assert(keys[m].0 < keys[k].0);
                }
                assert(group_of(prev, t, keys[k]) + Seq::<(i32, i32)>::empty() =~= group_of(
                    prev,
                    t,
                    keys[k],
                ));
            } else {
                assert(Seq::<(i32, i32)>::empty() + slot_items(lane_slots(st.1, k)) =~= slot_items(
                    lane_slots(st.1, k),
                ));
            }
        }
        assert forall|k: int, i: int|
            0 <= k < n && 0 <= i < lane_rects(st, k, t, items).len() implies rects_upto(
            st,
            n,
            t,
            items,
        ).contains(#[trigger] lane_rects(st, k, t, items)[i]) by {
            let all = rects_upto(st, n, t, items);
            if k < m {
                let j = choose|j: int| 0 <= j < prev.len() && prev[j] == lane_rects(st, k, t, items)[i];
                assert(all[j] == prev[j]);
            } else {
                assert(all[prev.len() + i] == c[i]);
            }
        }
    }
}

/// A shaped final state whose rectangles lie on the sheet is a two-stage layout along
/// its axis.
pub proof fn lemma_state_two_stage(
    st: (Seq<Lane>, Seq<Slot>),
    t: bool,
    items: Seq<PackInstance>,
    l1: int,
    l2: int,
)
    requires
        lanes_ok(st, l1),
        st.0.len() > 0,
        all_inside(state_rects(st, t, items), if t { l2 } else { l1 }, if t { l1 } else { l2 }),
    ensures
        stages_ok(state_rects(st, t, items), t, l1, l2),
{
    let n = st.0.len() as int;
    let rects = state_rects(st, t, items);
    assert(rects == rects_upto(st, n, t, items));
    lemma_rects_upto(st, l1, n, t, items);
    let keys = lane_keys(st.0);
    assert(keys.take(n) =~= keys);
    assert(keys_of(rects, t) == keys);
    lemma_lane_keys_increasing(st, l1);
    lemma_sorted_by_position(keys);
    lemma_tiles_increasing(keys, 0, used_len(st.0));
    if keys.len() > 0 {
        assert(keys.last().1 > 0);
    }
    lemma_tiles_stack(keys, 0, used_len(st.0), l1);
    assert forall|j: int| 0 <= j < keys.len() implies stacks_from(
        sort_by_position(#[trigger] group_of(rects, t, keys[j])),
        0,
        l2,
    ) by {
        let ls = lane_slots(st.1, j);
        let g = slot_items(ls);
        assert(group_of(rects, t, keys[j]) == g);
        lemma_lane_items_positive(st, l1, j);
        let fill = st.0[j].fill as int;
        lemma_tiles_increasing(g, 0, fill);
        lemma_sorted_by_position(g);
        lemma_lane_rects(st, l1, j, t, items);
        let lr = lane_rects(st, j, t, items);
        let last = lr.len() - 1;
        assert(rects.contains(lr[last]));
        let q = choose|q: int| 0 <= q < rects.len() && rects[q] == lr[last];
        assert(rect_inside(rects[q], if t { l2 } else { l1 }, if t { l1 } else { l2 }));
        assert(item_of(lr[last], t) == g[last]);
        assert(g.last() == g[last]);
        lemma_tiles_stack(g, 0, fill, l2);
    }
}

/// In a tiling with positive lengths, each piece ends no later than any later piece
/// starts.
pub proof fn lemma_tiles_disjoint(g: Seq<(i32, i32)>, start: int, end: int)
    requires
        tiles(g, start, end),
        positive_lengths(g),
    ensures
        forall|i: int, j: int|
            0 <= i < j < g.len() ==> (#[trigger] g[i]).0 + g[i].1 <= (#[trigger] g[j]).0,
    decreases g.len(),
{
    if g.len() > 0 {
        let d = g.drop_first();
        assert forall|i: int| 0 <= i < d.len() implies #[trigger] d[i].1 > 0 by {
            assert(d[i] == g[i + 1]);
        }
        lemma_tiles_disjoint(d, start + g[0].1, end);
        lemma_tiles_increasing(d, start + g[0].1, end);
        assert forall|i: int, j: int| 0 <= i < j < g.len() implies (#[trigger] g[i]).0 + g[i].1 <= (
        #[trigger] g[j]).0 by {
            assert(g[j] == d[j - 1]);
            if i > 0 {
                assert(g[i] == d[i - 1]);
            }
        }
    }
}

/// Where the rectangles of lanes `0..n` may end along the primary axis: at the start of
/// lane `n`, or at the used length once every lane is counted.
spec fn primary_bound(st: (Seq<Lane>, Seq<Slot>), n: int) -> int {
    if n < st.0.len() { st.0[n].pos as int } else { used_len(st.0) }
}

/// The rectangles of lanes `0..n` of a state filled within `l2` start at or after 0,
/// end by the primary bound and by `l2`, and do not overlap.
proof fn lemma_rects_upto_on_sheet(
    st: (Seq<Lane>, Seq<Slot>),
    l1: int,
    l2: int,
    n: int,
    t: bool,
    items: Seq<PackInstance>,
)
    requires
        lanes_ok(st, l1),
        fills_ok(st.0, l2),
        0 <= n <= st.0.len(),
    ensures
        forall|i: int|
            0 <= i < rects_upto(st, n, t, items).len() ==> {
                let r = #[trigger] rects_upto(st, n, t, items)[i];
                &&& 0 <= key_of(r, t).0
                &&& key_of(r, t).0 + key_of(r, t).1 <= primary_bound(st, n)
                &&& 0 <= item_of(r, t).0
                &&& item_of(r, t).0 + item_of(r, t).1 <= l2
            },
        no_overlap(rects_upto(st, n, t, items)),
    decreases n,
{
    let keys = lane_keys(st.0);
    lemma_tiles_increasing(keys, 0, used_len(st.0));
    lemma_tiles_disjoint(keys, 0, used_len(st.0));
    if n == 0 {
        assert(rects_upto(st, 0, t, items) =~= Seq::<PlacedRect>::empty());
    } else {
        let m = n - 1;
        lemma_rects_upto_on_sheet(st, l1, l2, m, t, items);
        lemma_rects_upto_step(st, m, t, items);
        lemma_lane_rects(st, l1, m, t, items);
        let prev = rects_upto(st, m, t, items);
        let c = lane_rects(st, m, t, items);
        let all = rects_upto(st, n, t, items);
        let g = slot_items(lane_slots(st.1, m));
        lemma_lane_items_positive(st, l1, m);
        lemma_tiles_increasing(g, 0, st.0[m].fill as int);
        lemma_tiles_disjoint(g, 0, st.0[m].fill as int);
        assert(keys[m] == (st.0[m].pos, st.0[m].len));
        assert(keys[m].1 > 0);
        assert(primary_bound(st, m) == keys[m].0);
        assert(keys[m].0 + keys[m].1 <= primary_bound(st, n)) by {
            if n < st.0.len() {
                assert(keys[n] == (st.0[n].pos, st.0[n].len));
            }
        }
        assert(st.0[m].fill <= l2);
        assert forall|i: int| 0 <= i < c.len() implies key_of(#[trigger] c[i], t) == keys[m] && item_of(
            c[i],
            t,
        ) == g[i] by {
            assert(c.map_values(|r: PlacedRect| item_of(r, t))[i] == item_of(c[i], t));
        }
        assert forall|i: int| 0 <= i < all.len() implies {
            let r = #[trigger] all[i];
            &&& 0 <= key_of(r, t).0
            &&& key_of(r, t).0 + key_of(r, t).1 <= primary_bound(st, n)
            &&& 0 <= item_of(r, t).0
            &&& item_of(r, t).0 + item_of(r, t).1 <= l2
        } by {
            if i < prev.len() {
                assert(all[i] == prev[i]);
            } else {
                assert(all[i] == c[i - prev.len()]);
                assert(g[i - prev.len()] == item_of(c[i - prev.len()], t));
            }
        }
        assert forall|i: int, j: int| 0 <= i < j < all.len() implies !#[trigger] overlap(all[i], all[j]) by {
            if j < prev.len() {
                assert(all[i] == prev[i] && all[j] == prev[j]);
            } else if i < prev.len() {
                assert(all[i] == prev[i]);
                assert(all[j] == c[j - prev.len()]);
                assert(key_of(prev[i], t).0 + key_of(prev[i], t).1 <= keys[m].0);
            } else {
                let a = i - prev.len();
                let b = j - prev.len();
                assert(all[i] == c[a] && all[j] == c[b]);
                assert(g[a].0 + g[a].1 <= g[b].0);
            }
        }
    }
}

/// A shaped state filled within `l2` lies on the `l1 × l2` sheet (axes swapped for
/// `t == true`) without overlaps.
pub proof fn lemma_state_on_sheet(
    st: (Seq<Lane>, Seq<Slot>),
    t: bool,
    items: Seq<PackInstance>,
    l1: int,
    l2: int,
)
    requires
        lanes_ok(st, l1),
        fills_ok(st.0, l2),
    ensures
        all_inside(state_rects(st, t, items), if t { l2 } else { l1 }, if t { l1 } else { l2 }),
        no_overlap(state_rects(st, t, items)),
{
    let n = st.0.len() as int;
    let rects = state_rects(st, t, items);
    assert(rects == rects_upto(st, n, t, items));
    lemma_rects_upto_on_sheet(st, l1, l2, n, t, items);
    if n > 0 {
        lemma_tiles_increasing(lane_keys(st.0), 0, used_len(st.0));
        assert(lane_keys(st.0)[0].1 > 0);
        assert(used_len(st.0) <= l1);
    } else {
        assert(flat(st.1, 0).len() == 0);
    }
    let wp = if t { l2 } else { l1 };
    let hp = if t { l1 } else { l2 };
    assert forall|i: int| 0 <= i < rects.len() implies #[trigger] rect_inside(rects[i], wp, hp) by {
        assert(rects[i] == rects_upto(st, n, t, items)[i]);
    }
}

/// A lane-free state has no rectangles.
proof fn lemma_no_lanes(st: (Seq<Lane>, Seq<Slot>), t: bool, items: Seq<PackInstance>)
    requires
        st.0.len() == 0,
    ensures
        state_rects(st, t, items).len() == 0,
{
    assert(flat(st.1, 0).len() == 0);
}

/// Every packing the searches find (with item sides at least 1) lies on the sheet
/// without overlaps and is a two-stage layout along the search's axis: `t == false` gives
/// V–H columns on an `l1 × l2` sheet, `t == true` H–V rows on an `l2 × l1` sheet.
pub proof fn search_layout_is_two_stage(
    items: Seq<PackInstance>,
    t: bool,
    use_dfs: bool,
    dflt: bool,
    l1: int,
    l2: int,
)
    requires
        sides_positive(items),
        items.len() <= usize::MAX,
        l1 <= i32::MAX,
        l2 <= i32::MAX,
        search_outcome(items, t, use_dfs, dflt, l1, l2) is Some,
    ensures
        crate::guillotine::two_stage_ok(
            search_outcome(items, t, use_dfs, dflt, l1, l2)->0,
            t,
            if t { l2 } else { l1 },
            if t { l1 } else { l2 },
        ),
{
    let init = (Seq::<Lane>::empty(), Seq::<Slot>::empty());
    assert(lane_keys(init.0) =~= Seq::<(i32, i32)>::empty());
    assert(used_len(init.0) == 0);
    assert(reach_ok(init, 0, l1, l2, items, t, dflt));
    let o = if use_dfs {
        dfs(init, 0, items, t, dflt, l1, l2)
    } else {
        greedy(init, 0, items, t, dflt, l1, l2)
    };
    if use_dfs {
        lemma_dfs_ok(init, 0, items, t, dflt, l1, l2);
    } else {
        lemma_greedy_ok(init, 0, items, t, dflt, l1, l2);
    }
    let st = o->0;
    lemma_state_on_sheet(st, t, items, l1, l2);
    if st.0.len() == 0 {
        lemma_no_lanes(st, t, items);
    } else {
        lemma_state_two_stage(st, t, items, l1, l2);
    }
}

// ---------------------------------------------------------------------------
// The packings returned
// ---------------------------------------------------------------------------

spec fn acc_two_stage(acc: (Seq<PackResultView>, Seq<Seq<char>>), wp: int, hp: int) -> bool {
    forall|i: int|
        0 <= i < acc.0.len() ==> two_stage_ok(
            (#[trigger] acc.0[i]).rects,
            acc.0[i].mode == PackMode::Hv,
            wp,
            hp,
        )
}

proof fn lemma_ordered_sides(instances: Seq<PackInstance>, seed: OrderSeed)
    requires
        sides_positive(instances),
    ensures
        sides_positive(sorted_instances(instances, seed)),
        sorted_instances(instances, seed).len() == instances.len(),
{
    let o = sorted_instances(instances, seed);
    lemma_sort_elements(instances, crate::guillotine::seed_before(seed));
    lemma_sort_len(instances, crate::guillotine::seed_before(seed));
    assert forall|i: int| 0 <= i < o.len() implies #[trigger] o[i].w >= 1 && o[i].h >= 1 by {
        assert(instances.contains(o[i]));
        let m = choose|m: int| 0 <= m < instances.len() && instances[m] == o[i];
        assert(instances[m].w >= 1);
    }
}

proof fn lemma_try_add_two_stage(
    acc: (Seq<PackResultView>, Seq<Seq<char>>),
    ordered: Seq<PackInstance>,
    t: bool,
    use_dfs: bool,
    dflt: bool,
    wp: int,
    hp: int,
)
    requires
        acc_two_stage(acc, wp, hp),
        sides_positive(ordered),
        ordered.len() <= usize::MAX,
        wp <= i32::MAX,
        hp <= i32::MAX,
    ensures
        acc_two_stage(
            try_add(
                acc,
                search_outcome(ordered, t, use_dfs, dflt, if t { hp } else { wp }, if t { wp } else { hp }),
                if t { PackMode::Hv } else { PackMode::Vh },
                wp,
                hp,
            ),
            wp,
            hp,
        ),
{
    let l1 = if t { hp } else { wp };
    let l2 = if t { wp } else { hp };
    let o = search_outcome(ordered, t, use_dfs, dflt, l1, l2);
    let mode = if t { PackMode::Hv } else { PackMode::Vh };
    let r = try_add(acc, o, mode, wp, hp);
    if r != acc {
        let rects = o->0;
        assert(all_inside(rects, wp, hp) && no_overlap(rects));
        search_layout_is_two_stage(ordered, t, use_dfs, dflt, l1, l2);
        assert forall|i: int| 0 <= i < r.0.len() implies two_stage_ok(
            (#[trigger] r.0[i]).rects,
            r.0[i].mode == PackMode::Hv,
            wp,
            hp,
        ) by {
            if i < acc.0.len() {
                assert(r.0[i] == acc.0[i]);
            }
        }
    }
}

proof fn lemma_run_seeds_two_stage(
    seeds: Seq<OrderSeed>,
    i: int,
    acc: (Seq<PackResultView>, Seq<Seq<char>>),
    instances: Seq<PackInstance>,
    wp: int,
    hp: int,
    dflt: bool,
    max_sol: int,
)
    requires
        acc_two_stage(acc, wp, hp),
        sides_positive(instances),
        instances.len() <= usize::MAX,
        wp <= i32::MAX,
        hp <= i32::MAX,
    ensures
        acc_two_stage(run_seeds(seeds, i, acc, instances, wp, hp, dflt, max_sol), wp, hp),
    decreases seeds.len() - i,
{
    if 0 <= i < seeds.len() {
        let ordered = sorted_instances(instances, seeds[i]);
        lemma_ordered_sides(instances, seeds[i]);
        let use_dfs = instances.len() <= dfs_limit();
        lemma_try_add_two_stage(acc, ordered, false, use_dfs, dflt, wp, hp);
        let a1 = try_add(acc, search_outcome(ordered, false, use_dfs, dflt, wp, hp), PackMode::Vh, wp, hp);
        lemma_try_add_two_stage(a1, ordered, true, use_dfs, dflt, wp, hp);
        let a = seed_step(acc, instances, seeds[i], wp, hp, dflt);
        if a.0.len() < max_sol {
            lemma_run_seeds_two_stage(seeds, i + 1, a, instances, wp, hp, dflt, max_sol);
        }
    }
}

/// When every instance has both sides at least 1, every packing returned is a two-stage
/// guillotine layout of its own mode on the sheet: V–H columns for `Vh`, H–V rows for
/// `Hv`.
pub proof fn packings_are_two_stage(
    wp: int,
    hp: int,
    instances: Seq<PackInstance>,
    seeds: Seq<OrderSeed>,
    max_sol: int,
    dflt: bool,
)
    requires
        sides_positive(instances),
        instances.len() <= usize::MAX,
        wp <= i32::MAX,
        hp <= i32::MAX,
    ensures
        forall|i: int|
            0 <= i < packed_results(wp, hp, instances, seeds, max_sol, dflt).len() ==> two_stage_ok(
                (#[trigger] packed_results(wp, hp, instances, seeds, max_sol, dflt)[i]).rects,
                packed_results(wp, hp, instances, seeds, max_sol, dflt)[i].mode == PackMode::Hv,
                wp,
                hp,
            ),
{
    let empty: (Seq<PackResultView>, Seq<Seq<char>>) = (seq![], seq![]);
    let acc = run_seeds(effective_seeds(seeds), 0, empty, instances, wp, hp, dflt, max_sol);
    lemma_run_seeds_two_stage(effective_seeds(seeds), 0, empty, instances, wp, hp, dflt, max_sol);
    let res = packed_results(wp, hp, instances, seeds, max_sol, dflt);
    assert(res == sort_by(acc.0, util_before()));
    lemma_sort_elements(acc.0, util_before());
    assert forall|i: int| 0 <= i < res.len() implies two_stage_ok(
        (#[trigger] res[i]).rects,
        res[i].mode == PackMode::Hv,
        wp,
        hp,
    ) by {
        let m = choose|m: int| 0 <= m < acc.0.len() && acc.0[m] == res[i];
    }
}

// ---------------------------------------------------------------------------
// Areas
// ---------------------------------------------------------------------------

/// Sum of the slots' areas.
pub open spec fn slots_area(s: Seq<Slot>) -> int
    decreases s.len(),
{
    if s.len() == 0 {
        0
    } else {
        slots_area(s.drop_last()) + s.last().plen * s.last().slen
    }
}

/// Sum of the lengths of the pieces.
pub open spec fn lens_sum(g: Seq<(i32, i32)>) -> int
    decreases g.len(),
{
    if g.len() == 0 {
        0
    } else {
        g[0].1 + lens_sum(g.drop_first())
    }
}

/// Sum of the slot areas of lanes `0..n`.
pub open spec fn lanes_area(slots: Seq<Slot>, n: int) -> int
    decreases n,
{
    if n <= 0 {
        0
    } else {
        lanes_area(slots, n - 1) + slots_area(lane_slots(slots, n - 1))
    }
}

proof fn lemma_slots_area_items(slots: Seq<Slot>, items: Seq<PackInstance>, n: int, t: bool, dflt: bool)
    requires
        slots_match(slots, items, t, dflt),
        0 <= n <= slots.len(),
        slots.len() <= items.len(),
    ensures
        slots_area(slots.take(n)) == instance_area_sum(items.take(n)),
    decreases n,
{
    if n > 0 {
        lemma_slots_area_items(slots, items, n - 1, t, dflt);
        assert(slots.take(n).drop_last() =~= slots.take(n - 1));
        assert(items.take(n).drop_last() =~= items.take(n - 1));
        assert(slots.take(n).last() == slots[n - 1]);
        assert(items.take(n).last() == items[n - 1]);
    }
}

proof fn lemma_tiles_lens(g: Seq<(i32, i32)>, start: int, end: int)
    requires
        tiles(g, start, end),
    ensures
        start + lens_sum(g) == end,
    decreases g.len(),
{
    if g.len() > 0 {
        lemma_tiles_lens(g.drop_first(), start + g[0].1, end);
    }
}

proof fn lemma_lens_push(g: Seq<(i32, i32)>, x: (i32, i32))
    ensures
        lens_sum(g.push(x)) == lens_sum(g) + x.1,
    decreases g.len(),
{
    if g.len() == 0 {
        assert(g.push(x).drop_first() =~= Seq::<(i32, i32)>::empty());
        assert(g.push(x)[0] == x);
        assert(lens_sum(Seq::<(i32, i32)>::empty()) == 0);
    } else {
        assert(g.push(x).drop_first() =~= g.drop_first().push(x));
        assert(g.push(x)[0] == g[0]);
        lemma_lens_push(g.drop_first(), x);
    }
}

/// The slots of one lane, all of primary length `len`, cover `len` times their stacked
/// length.
proof fn lemma_lane_area(ls: Seq<Slot>, len: int)
    requires
        forall|i: int| 0 <= i < ls.len() ==> (#[trigger] ls[i]).plen == len,
    ensures
        slots_area(ls) == len * lens_sum(slot_items(ls)),
    decreases ls.len(),
{
    if ls.len() > 0 {
        let d = ls.drop_last();
        assert forall|i: int| 0 <= i < d.len() implies (#[trigger] d[i]).plen == len by {
            assert(d[i] == ls[i]);
        }
        lemma_lane_area(d, len);
        assert(slot_items(ls) =~= slot_items(d).push((ls.last().spos, ls.last().slen)));
        lemma_lens_push(slot_items(d), (ls.last().spos, ls.last().slen));
        assert(ls.last() == ls[ls.len() - 1]);
        let a = lens_sum(slot_items(d));
        let b = ls.last().slen as int;
        assert(len * (a + b) == len * a + len * b) by (nonlinear_arith);
    } else {
        assert(slot_items(ls) =~= Seq::<(i32, i32)>::empty());
    }
}

proof fn lemma_lanes_area_push(slots: Seq<Slot>, x: Slot, n: int)
    requires
        n >= 0,
    ensures
        lanes_area(slots.push(x), n) == lanes_area(slots, n) + if x.lane < n {
            x.plen * x.slen
        } else {
            0
        },
    decreases n,
{
    if n > 0 {
        lemma_lanes_area_push(slots, x, n - 1);
        lemma_lane_slots_push_same(slots, x);
        if x.lane == n - 1 {
            assert(lane_slots(slots.push(x), n - 1) == lane_slots(slots, n - 1).push(x));
            assert(lane_slots(slots, n - 1).push(x).drop_last() =~= lane_slots(slots, n - 1));
        }
    }
}

proof fn lemma_lanes_area_all(slots: Seq<Slot>, n: int)
    requires
        n >= 0,
        forall|j: int| 0 <= j < slots.len() ==> (#[trigger] slots[j]).lane < n,
    ensures
        lanes_area(slots, n) == slots_area(slots),
    decreases slots.len(),
{
    if slots.len() == 0 {
        assert forall|m: int| 0 <= m <= n implies lanes_area(slots, m) == 0 by {
            lemma_lanes_area_zero(slots, m);
        }
    } else {
        let d = slots.drop_last();
        assert forall|j: int| 0 <= j < d.len() implies (#[trigger] d[j]).lane < n by {
            assert(d[j] == slots[j]);
        }
        lemma_lanes_area_all(d, n);
        assert(slots == d.push(slots.last()));
        assert(slots.last() == slots[slots.len() - 1]);
        lemma_lanes_area_push(d, slots.last(), n);
    }
}

proof fn lemma_lanes_area_zero(slots: Seq<Slot>, m: int)
    requires
        slots.len() == 0,
        m >= 0,
    ensures
        lanes_area(slots, m) == 0,
    decreases m,
{
    if m > 0 {
        lemma_lanes_area_zero(slots, m - 1);
    }
}

proof fn lemma_area_sum_append(a: Seq<PlacedRect>, b: Seq<PlacedRect>)
    ensures
        area_sum(a + b) == area_sum(a) + area_sum(b),
    decreases b.len(),
{
    if b.len() == 0 {
        assert(a + b =~= a);
    } else {
        lemma_area_sum_append(a, b.drop_last());
        assert((a + b).drop_last() =~= a + b.drop_last());
        assert((a + b).last() == b.last());
    }
}

proof fn lemma_rects_area(s: Seq<Slot>, t: bool, items: Seq<PackInstance>)
    ensures
        area_sum(s.map_values(|sl: Slot| slot_rect(sl, t, items))) == slots_area(s),
    decreases s.len(),
{
    let f = |sl: Slot| slot_rect(sl, t, items);
    if s.len() > 0 {
        let d = s.drop_last();
        lemma_rects_area(d, t, items);
        assert(s.map_values(f).drop_last() =~= d.map_values(f));
        let r = s.map_values(f).last();
        assert(r == slot_rect(s.last(), t, items));
        assert(r.w * r.h == s.last().plen * s.last().slen) by (nonlinear_arith)
            requires
                (r.w == s.last().plen && r.h == s.last().slen) || (r.w == s.last().slen && r.h
                    == s.last().plen),
        ;
    } else {
        assert(s.map_values(f) =~= Seq::<PlacedRect>::empty());
    }
}

proof fn lemma_rects_upto_area(st: (Seq<Lane>, Seq<Slot>), n: int, t: bool, items: Seq<PackInstance>)
    requires
        n >= 0,
    ensures
        area_sum(rects_upto(st, n, t, items)) == lanes_area(st.1, n),
    decreases n,
{
    if n == 0 {
        assert(rects_upto(st, 0, t, items) =~= Seq::<PlacedRect>::empty());
    } else {
        lemma_rects_upto_area(st, n - 1, t, items);
        lemma_rects_upto_step(st, n - 1, t, items);
        lemma_area_sum_append(rects_upto(st, n - 1, t, items), lane_rects(st, n - 1, t, items));
        lemma_rects_area(lane_slots(st.1, n - 1), t, items);
    }
}

proof fn lemma_lanes_area_bound(st: (Seq<Lane>, Seq<Slot>), l1: int, n: int, l2: int)
    requires
        lanes_ok(st, l1),
        0 <= n <= st.0.len(),
        forall|k: int| 0 <= k < st.0.len() ==> (#[trigger] st.0[k]).fill <= l2,
    ensures
        lanes_area(st.1, n) <= l2 * used_len(st.0.take(n)),
    decreases n,
{
    if n == 0 {
        assert(st.0.take(0) =~= Seq::<Lane>::empty());
    } else {
        let k = n - 1;
        lemma_lanes_area_bound(st, l1, k, l2);
        let ls = lane_slots(st.1, k);
        let len = st.0[k].len as int;
        let fill = st.0[k].fill as int;
        lemma_lane_slots_members(st.1, k);
        assert forall|i: int| 0 <= i < ls.len() implies (#[trigger] ls[i]).plen == len by {
            let m = choose|m: int| 0 <= m < st.1.len() && st.1[m] == ls[i];
            assert(slot_in_lane(st.1[m], st.0));
        }
        lemma_lane_area(ls, len);
        lemma_tiles_lens(slot_items(ls), 0, fill);
        assert(lane_keys(st.0)[k].1 > 0);
        assert(st.0.take(n).drop_last() =~= st.0.take(k));
        assert(st.0.take(n).last() == st.0[k]);
        let u = used_len(st.0.take(k));
        assert(len * fill <= len * l2) by (nonlinear_arith)
            requires
                len > 0,
                fill <= l2,
        ;
        assert(l2 * u + len * l2 == l2 * (u + len)) by (nonlinear_arith);
    }
}

/// The placed area of a shaped final state whose rectangles lie on the sheet equals the
/// items' area and is at most `l1 * l2`.
proof fn lemma_state_area(
    st: (Seq<Lane>, Seq<Slot>),
    t: bool,
    items: Seq<PackInstance>,
    l1: int,
    l2: int,
    dflt: bool,
)
    requires
        lanes_ok(st, l1),
        slots_match(st.1, items, t, dflt),
        st.1.len() == items.len(),
        all_inside(state_rects(st, t, items), if t { l2 } else { l1 }, if t { l1 } else { l2 }),
    ensures
        area_sum(state_rects(st, t, items)) == instance_area_sum(items),
        st.0.len() > 0 ==> area_sum(state_rects(st, t, items)) <= l1 * l2,
{
    let n = st.0.len() as int;
    let rects = state_rects(st, t, items);
    assert(rects == rects_upto(st, n, t, items));
    lemma_rects_upto_area(st, n, t, items);
    assert forall|j: int| 0 <= j < st.1.len() implies (#[trigger] st.1[j]).lane < n by {
        assert(slot_in_lane(st.1[j], st.0));
    }
    lemma_lanes_area_all(st.1, n);
    lemma_slots_area_items(st.1, items, st.1.len() as int, t, dflt);
    assert(st.1.take(st.1.len() as int) =~= st.1);
    assert(items.take(items.len() as int) =~= items);
    if n > 0 {
        lemma_rects_upto(st, l1, n, t, items);
        assert forall|k: int| 0 <= k < n implies (#[trigger] st.0[k]).fill <= l2 by {
            let g = slot_items(lane_slots(st.1, k));
            lemma_lane_items_positive(st, l1, k);
            lemma_tiles_increasing(g, 0, st.0[k].fill as int);
            lemma_lane_rects(st, l1, k, t, items);
            let lr = lane_rects(st, k, t, items);
            let last = lr.len() - 1;
            assert(rects.contains(lr[last]));
            let q = choose|q: int| 0 <= q < rects.len() && rects[q] == lr[last];
            assert(rect_inside(rects[q], if t { l2 } else { l1 }, if t { l1 } else { l2 }));
            assert(item_of(lr[last], t) == g[last]);
            assert(g.last() == g[last]);
        }
        lemma_lanes_area_bound(st, l1, n, l2);
        assert(st.0.take(n) =~= st.0);
        let u = used_len(st.0);
        lemma_tiles_increasing(lane_keys(st.0), 0, u);
        assert(lane_keys(st.0).last().1 > 0);
        assert(u <= l1);
        let fill0 = st.0[0].fill as int;
        lemma_lane_items_positive(st, l1, 0);
        lemma_tiles_increasing(slot_items(lane_slots(st.1, 0)), 0, fill0);
        lemma_lane_rects(st, l1, 0, t, items);
        assert(slot_items(lane_slots(st.1, 0))[0].1 > 0);
        assert(l2 >= fill0 && fill0 > 0);
        assert(l2 * u <= l1 * l2) by (nonlinear_arith)
            requires
                l2 > 0,
                u <= l1,
        ;
    }
}

/// Every packing the searches find (item sides at least 1) that lies on the sheet covers
/// exactly the items' total area, which, when there is an item, is at most the sheet's.
pub proof fn search_layout_area(
    items: Seq<PackInstance>,
    t: bool,
    use_dfs: bool,
    dflt: bool,
    l1: int,
    l2: int,
)
    requires
        sides_positive(items),
        items.len() <= usize::MAX,
        l1 <= i32::MAX,
        l2 <= i32::MAX,
        search_outcome(items, t, use_dfs, dflt, l1, l2) is Some,
        all_inside(
            search_outcome(items, t, use_dfs, dflt, l1, l2)->0,
            if t { l2 } else { l1 },
            if t { l1 } else { l2 },
        ),
    ensures
        area_sum(search_outcome(items, t, use_dfs, dflt, l1, l2)->0) == instance_area_sum(items),
        items.len() > 0 ==> area_sum(search_outcome(items, t, use_dfs, dflt, l1, l2)->0) <= l1 * l2,
{
    let init = (Seq::<Lane>::empty(), Seq::<Slot>::empty());
    assert(lane_keys(init.0) =~= Seq::<(i32, i32)>::empty());
    assert(used_len(init.0) == 0);
    assert(reach_ok(init, 0, l1, l2, items, t, dflt));
    let o = if use_dfs {
        dfs(init, 0, items, t, dflt, l1, l2)
    } else {
        greedy(init, 0, items, t, dflt, l1, l2)
    };
    if use_dfs {
        lemma_dfs_ok(init, 0, items, t, dflt, l1, l2);
    } else {
        lemma_greedy_ok(init, 0, items, t, dflt, l1, l2);
    }
    let st = o->0;
    lemma_state_area(st, t, items, l1, l2, dflt);
    if items.len() > 0 {
        assert(slot_in_lane(st.1[0], st.0));
    }
}

proof fn lemma_insert_area(s: Seq<PackInstance>, p: PackInstance, before: spec_fn(PackInstance, PackInstance) -> bool)
    ensures
        instance_area_sum(insert_by(s, p, before)) == instance_area_sum(s) + p.w * p.h,
    decreases s.len(),
{
    if s.len() > 0 && before(p, s.last()) {
        lemma_insert_area(s.drop_last(), p, before);
        let r = insert_by(s, p, before);
        assert(r.drop_last() =~= insert_by(s.drop_last(), p, before));
        assert(r.last() == s.last());
        assert(instance_area_sum(r) == instance_area_sum(r.drop_last()) + r.last().w * r.last().h);
    } else if s.len() > 0 {
        assert(s.push(p).drop_last() =~= s);
    } else {
        assert(seq![p].drop_last() =~= Seq::<PackInstance>::empty());
        assert(seq![p].last() == p);
        assert(instance_area_sum(Seq::<PackInstance>::empty()) == 0);
    }
}

/// Reordering the instances keeps their total area.
proof fn lemma_sort_area(s: Seq<PackInstance>, before: spec_fn(PackInstance, PackInstance) -> bool)
    ensures
        instance_area_sum(sort_by(s, before)) == instance_area_sum(s),
    decreases s.len(),
{
    if s.len() > 0 {
        lemma_sort_area(s.drop_last(), before);
        lemma_insert_area(sort_by(s.drop_last(), before), s.last(), before);
    }
}

spec fn acc_area(acc: (Seq<PackResultView>, Seq<Seq<char>>), area: int, nonempty: bool, wp: int, hp: int) -> bool {
    forall|i: int|
        0 <= i < acc.0.len() ==> (#[trigger] acc.0[i]).placed_area == area && (nonempty ==> acc.0[i].placed_area
            <= wp * hp)
}

proof fn lemma_try_add_area(
    acc: (Seq<PackResultView>, Seq<Seq<char>>),
    instances: Seq<PackInstance>,
    seed: OrderSeed,
    t: bool,
    use_dfs: bool,
    dflt: bool,
    wp: int,
    hp: int,
)
    requires
        acc_area(acc, instance_area_sum(instances), instances.len() > 0, wp, hp),
        sides_positive(instances),
        instances.len() <= usize::MAX,
        wp <= i32::MAX,
        hp <= i32::MAX,
    ensures
        acc_area(
            try_add(
                acc,
                search_outcome(
                    sorted_instances(instances, seed),
                    t,
                    use_dfs,
                    dflt,
                    if t { hp } else { wp },
                    if t { wp } else { hp },
                ),
                if t { PackMode::Hv } else { PackMode::Vh },
                wp,
                hp,
            ),
            instance_area_sum(instances),
            instances.len() > 0,
            wp,
            hp,
        ),
{
    let ordered = sorted_instances(instances, seed);
    lemma_ordered_sides(instances, seed);
    lemma_sort_area(instances, crate::guillotine::seed_before(seed));
    let l1 = if t { hp } else { wp };
    let l2 = if t { wp } else { hp };
    let o = search_outcome(ordered, t, use_dfs, dflt, l1, l2);
    let mode = if t { PackMode::Hv } else { PackMode::Vh };
    let r = try_add(acc, o, mode, wp, hp);
    if r != acc {
        let rects = o->0;
        assert(all_inside(rects, wp, hp));
        search_layout_area(ordered, t, use_dfs, dflt, l1, l2);
        assert(l1 * l2 == wp * hp) by (nonlinear_arith)
            requires
                (l1 == wp && l2 == hp) || (l1 == hp && l2 == wp),
        ;
        assert forall|i: int| 0 <= i < r.0.len() implies (#[trigger] r.0[i]).placed_area
            == instance_area_sum(instances) && (instances.len() > 0 ==> r.0[i].placed_area <= wp * hp) by {
            if i < acc.0.len() {
                assert(r.0[i] == acc.0[i]);
            }
        }
    }
}

proof fn lemma_run_seeds_area(
    seeds: Seq<OrderSeed>,
    i: int,
    acc: (Seq<PackResultView>, Seq<Seq<char>>),
    instances: Seq<PackInstance>,
    wp: int,
    hp: int,
    dflt: bool,
    max_sol: int,
)
    requires
        acc_area(acc, instance_area_sum(instances), instances.len() > 0, wp, hp),
        sides_positive(instances),
        instances.len() <= usize::MAX,
        wp <= i32::MAX,
        hp <= i32::MAX,
    ensures
        acc_area(
            run_seeds(seeds, i, acc, instances, wp, hp, dflt, max_sol),
            instance_area_sum(instances),
            instances.len() > 0,
            wp,
            hp,
        ),
    decreases seeds.len() - i,
{
    if 0 <= i < seeds.len() {
        let ordered = sorted_instances(instances, seeds[i]);
        let use_dfs = instances.len() <= dfs_limit();
        lemma_try_add_area(acc, instances, seeds[i], false, use_dfs, dflt, wp, hp);
        let a1 = try_add(acc, search_outcome(ordered, false, use_dfs, dflt, wp, hp), PackMode::Vh, wp, hp);
        lemma_try_add_area(a1, instances, seeds[i], true, use_dfs, dflt, wp, hp);
        let a = seed_step(acc, instances, seeds[i], wp, hp, dflt);
        if a.0.len() < max_sol {
            lemma_run_seeds_area(seeds, i + 1, a, instances, wp, hp, dflt, max_sol);
        }
    }
}

/// When every instance has both sides at least 1, every packing returned places exactly
/// the instances' total area, and so, when there is an instance and any packing is
/// returned, that area is at most the sheet's: the area check is a necessary condition.
pub proof fn packings_cover_instance_area(
    wp: int,
    hp: int,
    instances: Seq<PackInstance>,
    seeds: Seq<OrderSeed>,
    max_sol: int,
    dflt: bool,
)
    requires
        sides_positive(instances),
        instances.len() <= usize::MAX,
        wp <= i32::MAX,
        hp <= i32::MAX,
    ensures
        forall|i: int|
            0 <= i < packed_results(wp, hp, instances, seeds, max_sol, dflt).len() ==> (#[trigger] packed_results(
                wp,
                hp,
                instances,
                seeds,
                max_sol,
                dflt,
            )[i]).placed_area == instance_area_sum(instances),
        instances.len() > 0 && packed_results(wp, hp, instances, seeds, max_sol, dflt).len() > 0
            ==> instance_area_sum(instances) <= wp * hp,
{
    let empty: (Seq<PackResultView>, Seq<Seq<char>>) = (seq![], seq![]);
    let acc = run_seeds(effective_seeds(seeds), 0, empty, instances, wp, hp, dflt, max_sol);
    lemma_run_seeds_area(effective_seeds(seeds), 0, empty, instances, wp, hp, dflt, max_sol);
    let res = packed_results(wp, hp, instances, seeds, max_sol, dflt);
    assert(res == sort_by(acc.0, util_before()));
    lemma_sort_elements(acc.0, util_before());
    assert forall|i: int| 0 <= i < res.len() implies (#[trigger] res[i]).placed_area == instance_area_sum(
        instances,
    ) && (instances.len() > 0 ==> res[i].placed_area <= wp * hp) by {
        let m = choose|m: int| 0 <= m < acc.0.len() && acc.0[m] == res[i];
    }
    if instances.len() > 0 && res.len() > 0 {
        assert(res[0].placed_area <= wp * hp);
    }
}

// ---------------------------------------------------------------------------
// Which items are placed
// ---------------------------------------------------------------------------

/// Rectangle `q` places instance `inst`: same product, and the instance's sides, swapped
/// exactly when the rectangle is marked turned, which the instance must allow.
#[verifier::opaque]
pub open spec fn placed_as(q: PlacedRect, inst: PackInstance, dflt: bool) -> bool {
    &&& q.product_id == inst.product_id
    &&& if q.rotated {
        allows_rotation(inst, dflt) && q.w == inst.h && q.h == inst.w
    } else {
        q.w == inst.w && q.h == inst.h
    }
}

proof fn lemma_slot_placed(sl: Slot, t: bool, items: Seq<PackInstance>, dflt: bool)
    requires
        slot_holds(sl, items[sl.idx as int], t, dflt),
    ensures
        placed_as(slot_rect(sl, t, items), items[sl.idx as int], dflt),
{
    reveal(placed_as);
}

proof fn lemma_flat_members(slots: Seq<Slot>, n: int)
    ensures
        forall|i: int| 0 <= i < flat(slots, n).len() ==> slots.contains(#[trigger] flat(slots, n)[i]),
    decreases n,
{
    if n > 0 {
        lemma_flat_members(slots, n - 1);
        lemma_lane_slots_members(slots, n - 1);
        let a = flat(slots, n - 1);
        let b = lane_slots(slots, n - 1);
        let f = flat(slots, n);
        assert(f == a + b);
        assert forall|i: int| 0 <= i < f.len() implies slots.contains(#[trigger] f[i]) by {
            if i < a.len() {
                assert(f[i] == a[i]);
            } else {
                assert(f[i] == b[i - a.len()]);
            }
        }
    }
}

proof fn lemma_flat_push_len(slots: Seq<Slot>, x: Slot, n: int)
    requires
        n >= 0,
    ensures
        flat(slots.push(x), n).len() == flat(slots, n).len() + if x.lane < n {
            1int
        } else {
            0int
        },
    decreases n,
{
    if n > 0 {
        lemma_flat_push_len(slots, x, n - 1);
        lemma_lane_slots_push_same(slots, x);
    }
}

proof fn lemma_flat_len(slots: Seq<Slot>, n: int)
    requires
        n >= 0,
        forall|j: int| 0 <= j < slots.len() ==> (#[trigger] slots[j]).lane < n,
    ensures
        flat(slots, n).len() == slots.len(),
    decreases slots.len(),
{
    if slots.len() == 0 {
        lemma_flat_empty(slots, n);
    } else {
        let d = slots.drop_last();
        assert forall|j: int| 0 <= j < d.len() implies (#[trigger] d[j]).lane < n by {
            assert(d[j] == slots[j]);
        }
        lemma_flat_len(d, n);
        assert(slots == d.push(slots.last()));
        assert(slots.last() == slots[slots.len() - 1]);
        lemma_flat_push_len(d, slots.last(), n);
    }
}

proof fn lemma_flat_empty(slots: Seq<Slot>, n: int)
    requires
        slots.len() == 0,
    ensures
        flat(slots, n).len() == 0,
    decreases n,
{
    if n > 0 {
        lemma_flat_empty(slots, n - 1);
    }
}

/// No value occurs twice in `s`.
pub open spec fn distinct<T>(s: Seq<T>) -> bool {
    forall|i: int, j: int| 0 <= i < j < s.len() ==> #[trigger] s[i] != #[trigger] s[j]
}

/// The slots of a lane hold no slot twice when the slots do not.
proof fn lemma_lane_slots_distinct(slots: Seq<Slot>, l: int)
    requires
        distinct(slots),
    ensures
        distinct(lane_slots(slots, l)),
    decreases slots.len(),
{
    if slots.len() > 0 {
        let d = slots.drop_last();
        assert forall|i: int, j: int| 0 <= i < j < d.len() implies #[trigger] d[i] != #[trigger] d[j] by {
            assert(d[i] == slots[i] && d[j] == slots[j]);
        }
        lemma_lane_slots_distinct(d, l);
        lemma_lane_slots_members(d, l);
        let ld = lane_slots(d, l);
        if slots.last().lane == l {
            let r = lane_slots(slots, l);
            assert(r == ld.push(slots.last()));
            assert forall|i: int, j: int| 0 <= i < j < r.len() implies #[trigger] r[i] != #[trigger] r[j] by {
                if j == ld.len() {
                    assert(r[i] == ld[i]);
                    assert(d.contains(ld[i]));
                    let m = choose|m: int| 0 <= m < d.len() && d[m] == ld[i];
                    assert(slots[m] == d[m]);
                    assert(r[j] == slots[slots.len() - 1]);
                } else {
                    assert(r[i] == ld[i] && r[j] == ld[j]);
                }
            }
        }
    }
}

/// The slots listed for lanes `0..n` all belong to those lanes.
proof fn lemma_flat_lanes(slots: Seq<Slot>, n: int)
    ensures
        forall|i: int| 0 <= i < flat(slots, n).len() ==> (#[trigger] flat(slots, n)[i]).lane < n,
    decreases n,
{
    if n > 0 {
        lemma_flat_lanes(slots, n - 1);
        lemma_lane_slots_members(slots, n - 1);
        let a = flat(slots, n - 1);
        let b = lane_slots(slots, n - 1);
        let f = flat(slots, n);
        assert(f == a + b);
        assert forall|i: int| 0 <= i < f.len() implies (#[trigger] f[i]).lane < n by {
            if i < a.len() {
                assert(f[i] == a[i]);
            } else {
                assert(f[i] == b[i - a.len()]);
            }
        }
    }
}

/// Listing the slots lane by lane repeats none.
proof fn lemma_flat_distinct(slots: Seq<Slot>, n: int)
    requires
        distinct(slots),
    ensures
        distinct(flat(slots, n)),
    decreases n,
{
    if n > 0 {
        lemma_flat_distinct(slots, n - 1);
        lemma_flat_lanes(slots, n - 1);
        lemma_lane_slots_distinct(slots, n - 1);
        lemma_lane_slots_members(slots, n - 1);
        let a = flat(slots, n - 1);
        let b = lane_slots(slots, n - 1);
        let f = flat(slots, n);
        assert(f == a + b);
        assert forall|i: int, j: int| 0 <= i < j < f.len() implies #[trigger] f[i] != #[trigger] f[j] by {
            if j < a.len() {
                assert(f[i] == a[i] && f[j] == a[j]);
            } else if i < a.len() {
                assert(f[i] == a[i] && f[j] == b[j - a.len()]);
                assert(a[i].lane < n - 1);
            } else {
                assert(f[i] == b[i - a.len()] && f[j] == b[j - a.len()]);
            }
        }
    } else {
        assert(flat(slots, n).len() == 0);
    }
}

/// The rectangles of a shaped final state that holds every item place the items one
/// for one.
proof fn lemma_state_places(
    st: (Seq<Lane>, Seq<Slot>),
    t: bool,
    items: Seq<PackInstance>,
    l1: int,
    dflt: bool,
)
    requires
        lanes_ok(st, l1),
        slots_match(st.1, items, t, dflt),
        st.1.len() == items.len(),
    ensures
        places_all(state_rects(st, t, items), items, dflt),
{
    let n = st.0.len() as int;
    let slots = st.1;
    let rects = state_rects(st, t, items);
    assert forall|j: int| 0 <= j < slots.len() implies (#[trigger] slots[j]).lane < n by {
        assert(slot_in_lane(slots[j], st.0));
    }
    lemma_flat_len(slots, n);
    lemma_flat_members(slots, n);
    assert forall|i: int, j: int| 0 <= i < j < slots.len() implies #[trigger] slots[i] != #[trigger] slots[j] by {
        assert(slots[i].idx == i && slots[j].idx == j);
    }
    lemma_flat_distinct(slots, n);
    let fl = flat(slots, n);
    let perm = fl.map_values(|sl: Slot| sl.idx as int);
    assert forall|i: int| 0 <= i < fl.len() implies 0 <= #[trigger] perm[i] < fl.len() && perm[i] == fl[i].idx
        && fl[i] == slots[perm[i]] by {
        assert(slots.contains(fl[i]));
        let m = choose|m: int| 0 <= m < slots.len() && slots[m] == fl[i];
        assert(slots[m].idx == m);
    }
    assert forall|i: int, j: int| 0 <= i < j < fl.len() implies #[trigger] perm[i] != #[trigger] perm[j] by {
        assert(0 <= perm[i] < fl.len() && fl[i] == slots[perm[i]]);
        assert(0 <= perm[j] < fl.len() && fl[j] == slots[perm[j]]);
        assert(fl[i] != fl[j]);
    }
    assert(is_permutation(perm, rects.len() as int));
    assert forall|i: int| 0 <= i < rects.len() implies placed_as(#[trigger] rects[i], items[perm[i]], dflt) by {
        assert(0 <= perm[i] < fl.len() && fl[i] == slots[perm[i]]);
        let m = perm[i];
        assert(slots[m].idx == m);
        assert(slot_holds(slots[m], items[m], t, dflt));
        assert(rects[i] == slot_rect(fl[i], t, items));
        lemma_slot_placed(slots[m], t, items, dflt);
    }
}

/// Every packing the searches find (item sides at least 1) places the items one for one:
/// its rectangles are the items, each in its own orientation or turned where allowed, in
/// some order.
pub proof fn search_places_items(
    items: Seq<PackInstance>,
    t: bool,
    use_dfs: bool,
    dflt: bool,
    l1: int,
    l2: int,
)
    requires
        sides_positive(items),
        items.len() <= usize::MAX,
        l1 <= i32::MAX,
        l2 <= i32::MAX,
        search_outcome(items, t, use_dfs, dflt, l1, l2) is Some,
    ensures
        places_all(search_outcome(items, t, use_dfs, dflt, l1, l2)->0, items, dflt),
{
    let init = (Seq::<Lane>::empty(), Seq::<Slot>::empty());
    assert(lane_keys(init.0) =~= Seq::<(i32, i32)>::empty());
    assert(used_len(init.0) == 0);
    assert(reach_ok(init, 0, l1, l2, items, t, dflt));
    let o = if use_dfs {
        dfs(init, 0, items, t, dflt, l1, l2)
    } else {
        greedy(init, 0, items, t, dflt, l1, l2)
    };
    if use_dfs {
        lemma_dfs_ok(init, 0, items, t, dflt, l1, l2);
    } else {
        lemma_greedy_ok(init, 0, items, t, dflt, l1, l2);
    }
    lemma_state_places(o->0, t, items, l1, dflt);
}

spec fn acc_placed(
    acc: (Seq<PackResultView>, Seq<Seq<char>>),
    instances: Seq<PackInstance>,
    dflt: bool,
) -> bool {
    forall|i: int| 0 <= i < acc.0.len() ==> places_all(#[trigger] acc.0[i].rects, instances, dflt)
}

/// `perm` lists each of `0..n` exactly once.
pub open spec fn is_permutation(perm: Seq<int>, n: int) -> bool {
    &&& perm.len() == n
    &&& forall|i: int| 0 <= i < n ==> 0 <= #[trigger] perm[i] < n
    &&& forall|i: int, j: int| 0 <= i < j < n ==> #[trigger] perm[i] != #[trigger] perm[j]
}

/// `rects` places the instances one for one: rectangle `i` places instance `perm[i]`
/// for a permutation `perm` of the instances' indices.
pub open spec fn places_all(rects: Seq<PlacedRect>, instances: Seq<PackInstance>, dflt: bool) -> bool {
    &&& rects.len() == instances.len()
    &&& exists|perm: Seq<int>|
        is_permutation(perm, rects.len() as int) && forall|i: int|
            0 <= i < rects.len() ==> placed_as(#[trigger] rects[i], instances[perm[i]], dflt)
}

/// Inserting by `before` puts the new value at some position.
proof fn lemma_insert_pos<T>(s: Seq<T>, p: T, before: spec_fn(T, T) -> bool) -> (j: int)
    ensures
        0 <= j <= s.len(),
        insert_by(s, p, before) == s.insert(j, p),
    decreases s.len(),
{
    if s.len() == 0 {
        assert(seq![p] =~= s.insert(0, p));
        0
    } else if before(p, s.last()) {
        let d = s.drop_last();
        let j = lemma_insert_pos(d, p, before);
        assert(d.insert(j, p).push(s.last()) =~= s.insert(j, p));
        j
    } else {
        assert(s.push(p) =~= s.insert(s.len() as int, p));
        s.len() as int
    }
}

/// Sorting only reorders: entry `i` of the sorted list is entry `sigma[i]` of the list,
/// for a permutation `sigma`.
pub proof fn lemma_sort_perm<T>(s: Seq<T>, before: spec_fn(T, T) -> bool) -> (sigma: Seq<int>)
    ensures
        is_permutation(sigma, s.len() as int),
        sort_by(s, before).len() == s.len(),
        forall|i: int| 0 <= i < s.len() ==> #[trigger] sort_by(s, before)[i] == s[sigma[i]],
    decreases s.len(),
{
    if s.len() == 0 {
        Seq::<int>::empty()
    } else {
        let d = s.drop_last();
        let n = s.len() - 1;
        let sd = lemma_sort_perm(d, before);
        let x = sort_by(d, before);
        let j = lemma_insert_pos(x, s.last(), before);
        let sigma = sd.insert(j, n);
        let r = sort_by(s, before);
        assert(r == x.insert(j, s.last()));
        assert forall|i: int| 0 <= i < s.len() implies 0 <= #[trigger] sigma[i] < s.len() by {
            if i > j {
                assert(sigma[i] == sd[i - 1]);
            } else if i < j {
                assert(sigma[i] == sd[i]);
            }
        }
        assert forall|a: int, b: int| 0 <= a < b < s.len() implies #[trigger] sigma[a] != #[trigger] sigma[b] by {
            if a < j {
                assert(sigma[a] == sd[a]);
            } else if a > j {
                assert(sigma[a] == sd[a - 1]);
            }
            if b < j {
                assert(sigma[b] == sd[b]);
            } else if b > j {
                assert(sigma[b] == sd[b - 1]);
            }
        }
        assert forall|i: int| 0 <= i < s.len() implies #[trigger] r[i] == s[sigma[i]] by {
            if i < j {
                assert(r[i] == x[i] && sigma[i] == sd[i] && d[sd[i]] == s[sd[i]]);
            } else if i > j {
                assert(r[i] == x[i - 1] && sigma[i] == sd[i - 1] && d[sd[i - 1]] == s[sd[i - 1]]);
            }
        }
        sigma
    }
}

/// Placing a sorted copy of the instances one for one places the instances one for one.
proof fn lemma_places_sorted(rects: Seq<PlacedRect>, instances: Seq<PackInstance>, seed: OrderSeed, dflt: bool)
    requires
        places_all(rects, sorted_instances(instances, seed), dflt),
    ensures
        places_all(rects, instances, dflt),
{
    let ordered = sorted_instances(instances, seed);
    let sigma = lemma_sort_perm(instances, crate::guillotine::seed_before(seed));
    let n = rects.len() as int;
    let perm = choose|perm: Seq<int>|
        is_permutation(perm, n) && forall|i: int|
            0 <= i < n ==> placed_as(#[trigger] rects[i], ordered[perm[i]], dflt);
    let c = perm.map_values(|v: int| sigma[v]);
    assert forall|i: int| 0 <= i < n implies 0 <= #[trigger] c[i] < n && placed_as(
        rects[i],
        instances[c[i]],
        dflt,
    ) by {
        assert(0 <= perm[i] < n);
        assert(0 <= sigma[perm[i]] < n);
        assert(ordered[perm[i]] == instances[sigma[perm[i]]]);
    }
    assert forall|a: int, b: int| 0 <= a < b < n implies #[trigger] c[a] != #[trigger] c[b] by {
        assert(perm[a] != perm[b]);
        assert(0 <= perm[a] < n && 0 <= perm[b] < n);
        if perm[a] < perm[b] {
            assert(sigma[perm[a]] != sigma[perm[b]]);
        } else {
            assert(sigma[perm[b]] != sigma[perm[a]]);
        }
    }
    assert(is_permutation(c, n));
    assert forall|i: int| 0 <= i < n implies placed_as(#[trigger] rects[i], instances[c[i]], dflt) by {
        assert(0 <= c[i] < n);
    }
}

proof fn lemma_try_add_placed(
    acc: (Seq<PackResultView>, Seq<Seq<char>>),
    instances: Seq<PackInstance>,
    seed: OrderSeed,
    t: bool,
    use_dfs: bool,
    dflt: bool,
    wp: int,
    hp: int,
)
    requires
        acc_placed(acc, instances, dflt),
        sides_positive(instances),
        instances.len() <= usize::MAX,
        wp <= i32::MAX,
        hp <= i32::MAX,
    ensures
        acc_placed(
            try_add(
                acc,
                search_outcome(
                    sorted_instances(instances, seed),
                    t,
                    use_dfs,
                    dflt,
                    if t { hp } else { wp },
                    if t { wp } else { hp },
                ),
                if t { PackMode::Hv } else { PackMode::Vh },
                wp,
                hp,
            ),
            instances,
            dflt,
        ),
{
    let ordered = sorted_instances(instances, seed);
    lemma_ordered_sides(instances, seed);
    let l1 = if t { hp } else { wp };
    let l2 = if t { wp } else { hp };
    let o = search_outcome(ordered, t, use_dfs, dflt, l1, l2);
    let mode = if t { PackMode::Hv } else { PackMode::Vh };
    let r = try_add(acc, o, mode, wp, hp);
    if r != acc {
        let rects = o->0;
        search_places_items(ordered, t, use_dfs, dflt, l1, l2);
        lemma_places_sorted(rects, instances, seed, dflt);
        assert forall|i: int| 0 <= i < r.0.len() implies places_all(#[trigger] r.0[i].rects, instances, dflt) by {
            if i < acc.0.len() {
                assert(r.0[i] == acc.0[i]);
            } else {
                assert(r.0[i].rects == rects);
            }
        }
    }
}

proof fn lemma_run_seeds_placed(
    seeds: Seq<OrderSeed>,
    i: int,
    acc: (Seq<PackResultView>, Seq<Seq<char>>),
    instances: Seq<PackInstance>,
    wp: int,
    hp: int,
    dflt: bool,
    max_sol: int,
)
    requires
        acc_placed(acc, instances, dflt),
        sides_positive(instances),
        instances.len() <= usize::MAX,
        wp <= i32::MAX,
        hp <= i32::MAX,
    ensures
        acc_placed(run_seeds(seeds, i, acc, instances, wp, hp, dflt, max_sol), instances, dflt),
    decreases seeds.len() - i,
{
    if 0 <= i < seeds.len() {
        let ordered = sorted_instances(instances, seeds[i]);
        let use_dfs = instances.len() <= dfs_limit();
        lemma_try_add_placed(acc, instances, seeds[i], false, use_dfs, dflt, wp, hp);
        let a1 = try_add(acc, search_outcome(ordered, false, use_dfs, dflt, wp, hp), PackMode::Vh, wp, hp);
        lemma_try_add_placed(a1, instances, seeds[i], true, use_dfs, dflt, wp, hp);
        let a = seed_step(acc, instances, seeds[i], wp, hp, dflt);
        if a.0.len() < max_sol {
            lemma_run_seeds_placed(seeds, i + 1, a, instances, wp, hp, dflt, max_sol);
        }
    }
}

/// When every instance has both sides at least 1, every packing returned places the
/// instances one for one: rectangle `i` places instance `perm[i]` for a permutation
/// `perm` (same product; sides swapped exactly when marked turned, and turned only when
/// the instance, or for an instance without its own setting the default, allows it).
pub proof fn packings_place_instances(
    wp: int,
    hp: int,
    instances: Seq<PackInstance>,
    seeds: Seq<OrderSeed>,
    max_sol: int,
    dflt: bool,
)
    requires
        sides_positive(instances),
        instances.len() <= usize::MAX,
        wp <= i32::MAX,
        hp <= i32::MAX,
    ensures
        forall|i: int|
            0 <= i < packed_results(wp, hp, instances, seeds, max_sol, dflt).len() ==> places_all(
                (#[trigger] packed_results(wp, hp, instances, seeds, max_sol, dflt)[i]).rects,
                instances,
                dflt,
            ),
{
    let empty: (Seq<PackResultView>, Seq<Seq<char>>) = (seq![], seq![]);
    let acc = run_seeds(effective_seeds(seeds), 0, empty, instances, wp, hp, dflt, max_sol);
    lemma_run_seeds_placed(effective_seeds(seeds), 0, empty, instances, wp, hp, dflt, max_sol);
    let res = packed_results(wp, hp, instances, seeds, max_sol, dflt);
    assert(res == sort_by(acc.0, util_before()));
    lemma_sort_elements(acc.0, util_before());
    assert forall|i: int| 0 <= i < res.len() implies places_all(#[trigger] res[i].rects, instances, dflt) by {
        let m = choose|m: int| 0 <= m < acc.0.len() && acc.0[m] == res[i];
        assert(acc.0[m] == res[i]);
    }
}


// ---------------------------------------------------------------------------
// The two axes, and the two search strategies
// ---------------------------------------------------------------------------

/// An instance with its sides exchanged.
pub open spec fn swap_instance(i: PackInstance) -> PackInstance {
    PackInstance { product_id: i.product_id, w: i.h, h: i.w, allow_rotation: i.allow_rotation }
}

/// A rectangle mirrored across the sheet's diagonal.
pub open spec fn swap_rect(r: PlacedRect) -> PlacedRect {
    PlacedRect { x: r.y, y: r.x, w: r.h, h: r.w, product_id: r.product_id, rotated: r.rotated }
}

/// The instances with their sides exchanged.
pub open spec fn swap_instances(items: Seq<PackInstance>) -> Seq<PackInstance> {
    items.map_values(|i: PackInstance| swap_instance(i))
}

/// A search outcome mirrored across the sheet's diagonal.
pub open spec fn swap_outcome(o: Option<Seq<PlacedRect>>) -> Option<Seq<PlacedRect>> {
    match o {
        Some(v) => Some(v.map_values(|r: PlacedRect| swap_rect(r))),
        None => None,
    }
}

/// The moves along axis `t == true` are those of the side-swapped instance along
/// `t == false`.
proof fn lemma_swap_moves(
    st: (Seq<Lane>, Seq<Slot>),
    k: int,
    inst: PackInstance,
    dflt: bool,
    l1: int,
    l2: int,
)
    ensures
        moves(st, k, inst, true, dflt, l1, l2) == moves(st, k, swap_instance(inst), false, dflt, l1, l2),
{
    let si = swap_instance(inst);
    assert(primary_len(inst, true, false) == primary_len(si, false, false));
    assert(secondary_len(inst, true, false) == secondary_len(si, false, false));
    assert(primary_len(inst, true, true) == primary_len(si, false, true));
    assert(secondary_len(inst, true, true) == secondary_len(si, false, true));
    assert(rot_moves(st, k, inst, true, false, l1, l2) == rot_moves(st, k, si, false, false, l1, l2));
    assert(rot_moves(st, k, inst, true, true, l1, l2) == rot_moves(st, k, si, false, true, l1, l2));
    assert(allows_rotation(inst, dflt) == allows_rotation(si, dflt));
}

proof fn lemma_swap_dfs(
    st: (Seq<Lane>, Seq<Slot>),
    k: int,
    items: Seq<PackInstance>,
    dflt: bool,
    l1: int,
    l2: int,
)
    ensures
        dfs(st, k, items, true, dflt, l1, l2) == dfs(st, k, swap_instances(items), false, dflt, l1, l2),
    decreases items.len() - k, 0int,
{
    let sw = swap_instances(items);
    if 0 <= k < items.len() {
        assert(sw[k] == swap_instance(items[k]));
        lemma_swap_moves(st, k, items[k], dflt, l1, l2);
        lemma_swap_first_some(moves(st, k, items[k], true, dflt, l1, l2), k + 1, items, dflt, l1, l2);
    }
}

proof fn lemma_swap_first_some(
    ms: Seq<(Seq<Lane>, Seq<Slot>)>,
    k: int,
    items: Seq<PackInstance>,
    dflt: bool,
    l1: int,
    l2: int,
)
    ensures
        first_some(ms, k, items, true, dflt, l1, l2) == first_some(
            ms,
            k,
            swap_instances(items),
            false,
            dflt,
            l1,
            l2,
        ),
    decreases items.len() - k, ms.len(),
{
    if ms.len() > 0 {
        lemma_swap_dfs(ms[0], k, items, dflt, l1, l2);
        lemma_swap_first_some(ms.drop_first(), k, items, dflt, l1, l2);
    }
}

proof fn lemma_swap_greedy(
    st: (Seq<Lane>, Seq<Slot>),
    k: int,
    items: Seq<PackInstance>,
    dflt: bool,
    l1: int,
    l2: int,
)
    ensures
        greedy(st, k, items, true, dflt, l1, l2) == greedy(st, k, swap_instances(items), false, dflt, l1, l2),
    decreases items.len() - k,
{
    let sw = swap_instances(items);
    if 0 <= k < items.len() {
        assert(sw[k] == swap_instance(items[k]));
        lemma_swap_moves(st, k, items[k], dflt, l1, l2);
        let ms = moves(st, k, items[k], true, dflt, l1, l2);
        if ms.len() > 0 {
            lemma_swap_greedy(ms[0], k + 1, items, dflt, l1, l2);
        }
    }
}

/// Every slot names an item below `n`.
spec fn idx_below(slots: Seq<Slot>, n: int) -> bool {
    forall|j: int| 0 <= j < slots.len() ==> (#[trigger] slots[j]).idx < n
}

/// Each move adds one slot, for item `k`.
proof fn lemma_moves_push_idx(
    st: (Seq<Lane>, Seq<Slot>),
    k: int,
    inst: PackInstance,
    t: bool,
    dflt: bool,
    l1: int,
    l2: int,
    n: int,
)
    requires
        idx_below(st.1, n),
        0 <= k < n,
        n <= usize::MAX,
    ensures
        forall|i: int|
            0 <= i < moves(st, k, inst, t, dflt, l1, l2).len() ==> idx_below(
                (#[trigger] moves(st, k, inst, t, dflt, l1, l2)[i]).1,
                n,
            ),
{
    assert forall|rot: bool, ci: int| ci >= 0 implies forall|i: int|
        0 <= i < #[trigger] lane_moves(
            st,
            k,
            primary_len(inst, t, rot),
            secondary_len(inst, t, rot),
            rot,
            l2,
            ci,
        ).len() ==> idx_below(
            lane_moves(st, k, primary_len(inst, t, rot), secondary_len(inst, t, rot), rot, l2, ci)[i].1,
            n,
        ) by {
        lemma_lane_moves_idx(st, k, primary_len(inst, t, rot), secondary_len(inst, t, rot), rot, l2, ci, n);
    }
    let om0 = open_lane(st, k, primary_len(inst, t, false), secondary_len(inst, t, false), false);
    let om1 = open_lane(st, k, primary_len(inst, t, true), secondary_len(inst, t, true), true);
    assert(idx_below(om0.1, n)) by {
        assert forall|j: int| 0 <= j < om0.1.len() implies (#[trigger] om0.1[j]).idx < n by {
            if j < st.1.len() {
                assert(om0.1[j] == st.1[j]);
            }
        }
    }
    assert(idx_below(om1.1, n)) by {
        assert forall|j: int| 0 <= j < om1.1.len() implies (#[trigger] om1.1[j]).idx < n by {
            if j < st.1.len() {
                assert(om1.1[j] == st.1[j]);
            }
        }
    }
    let ms = moves(st, k, inst, t, dflt, l1, l2);
    let a = rot_moves(st, k, inst, t, false, l1, l2);
    let b = rot_moves(st, k, inst, t, true, l1, l2);
    let la = lane_moves(st, k, primary_len(inst, t, false), secondary_len(inst, t, false), false, l2, 0);
    let lb = lane_moves(st, k, primary_len(inst, t, true), secondary_len(inst, t, true), true, l2, 0);
    assert forall|i: int| 0 <= i < ms.len() implies idx_below((#[trigger] ms[i]).1, n) by {
        if i < a.len() {
            assert(ms[i] == a[i]);
            if i < la.len() {
                assert(a[i] == la[i]);
            } else {
                assert(a[i] == om0);
            }
        } else {
            let q = i - a.len();
            assert(ms[i] == b[q]);
            if q < lb.len() {
                assert(b[q] == lb[q]);
            } else {
                assert(b[q] == om1);
            }
        }
    }
}

proof fn lemma_lane_moves_idx(
    st: (Seq<Lane>, Seq<Slot>),
    k: int,
    p: i32,
    s: i32,
    rot: bool,
    l2: int,
    ci: int,
    n: int,
)
    requires
        idx_below(st.1, n),
        0 <= k < n,
        n <= usize::MAX,
        ci >= 0,
    ensures
        forall|i: int|
            0 <= i < lane_moves(st, k, p, s, rot, l2, ci).len() ==> idx_below(
                (#[trigger] lane_moves(st, k, p, s, rot, l2, ci)[i]).1,
                n,
            ),
    decreases st.0.len() - ci,
{
    if ci < st.0.len() {
        lemma_lane_moves_idx(st, k, p, s, rot, l2, ci + 1, n);
        let rest = lane_moves(st, k, p, s, rot, l2, ci + 1);
        let all = lane_moves(st, k, p, s, rot, l2, ci);
        let pm = place_in(st, ci, k, p, s, rot);
        assert(idx_below(pm.1, n)) by {
            assert forall|j: int| 0 <= j < pm.1.len() implies (#[trigger] pm.1[j]).idx < n by {
                if j < st.1.len() {
                    assert(pm.1[j] == st.1[j]);
                }
            }
        }
        assert forall|i: int| 0 <= i < all.len() implies idx_below((#[trigger] all[i]).1, n) by {
            if st.0[ci].len == p && st.0[ci].fill + s <= l2 {
                if i > 0 {
                    assert(all[i] == rest[i - 1]);
                } else {
                    assert(all[i] == pm);
                }
            } else {
                assert(all[i] == rest[i]);
            }
        }
    }
}

proof fn lemma_dfs_idx(
    st: (Seq<Lane>, Seq<Slot>),
    k: int,
    items: Seq<PackInstance>,
    t: bool,
    dflt: bool,
    l1: int,
    l2: int,
)
    requires
        idx_below(st.1, items.len() as int),
        items.len() <= usize::MAX,
        k >= 0,
    ensures
        dfs(st, k, items, t, dflt, l1, l2) matches Some(r) ==> idx_below(r.1, items.len() as int),
    decreases items.len() - k, 0int,
{
    if k < items.len() {
        lemma_moves_push_idx(st, k, items[k], t, dflt, l1, l2, items.len() as int);
        lemma_first_some_idx(moves(st, k, items[k], t, dflt, l1, l2), k + 1, items, t, dflt, l1, l2);
    }
}

proof fn lemma_first_some_idx(
    ms: Seq<(Seq<Lane>, Seq<Slot>)>,
    k: int,
    items: Seq<PackInstance>,
    t: bool,
    dflt: bool,
    l1: int,
    l2: int,
)
    requires
        forall|i: int| 0 <= i < ms.len() ==> idx_below((#[trigger] ms[i]).1, items.len() as int),
        items.len() <= usize::MAX,
        k >= 0,
    ensures
        first_some(ms, k, items, t, dflt, l1, l2) matches Some(r) ==> idx_below(r.1, items.len() as int),
    decreases items.len() - k, ms.len(),
{
    if ms.len() > 0 {
        lemma_dfs_idx(ms[0], k, items, t, dflt, l1, l2);
        let d = ms.drop_first();
        assert forall|i: int| 0 <= i < d.len() implies idx_below((#[trigger] d[i]).1, items.len() as int) by {
            assert(d[i] == ms[i + 1]);
        }
        lemma_first_some_idx(d, k, items, t, dflt, l1, l2);
    }
}

proof fn lemma_greedy_idx(
    st: (Seq<Lane>, Seq<Slot>),
    k: int,
    items: Seq<PackInstance>,
    t: bool,
    dflt: bool,
    l1: int,
    l2: int,
)
    requires
        idx_below(st.1, items.len() as int),
        items.len() <= usize::MAX,
        k >= 0,
    ensures
        greedy(st, k, items, t, dflt, l1, l2) matches Some(r) ==> idx_below(r.1, items.len() as int),
    decreases items.len() - k,
{
    if k < items.len() {
        lemma_moves_push_idx(st, k, items[k], t, dflt, l1, l2, items.len() as int);
        let ms = moves(st, k, items[k], t, dflt, l1, l2);
        if ms.len() > 0 {
            lemma_greedy_idx(ms[0], k + 1, items, t, dflt, l1, l2);
        }
    }
}

/// The H–V search (rows) finds what the V–H search (columns) finds on the side-swapped
/// instances, mirrored across the sheet's diagonal; likewise when neither finds a
/// packing.  Both use the same primary and secondary limits.
pub proof fn hv_search_is_mirrored_vh(
    items: Seq<PackInstance>,
    use_dfs: bool,
    dflt: bool,
    l1: int,
    l2: int,
)
    requires
        items.len() <= usize::MAX,
    ensures
        search_outcome(items, true, use_dfs, dflt, l1, l2) == swap_outcome(
            search_outcome(swap_instances(items), false, use_dfs, dflt, l1, l2),
        ),
{
    let init = (Seq::<Lane>::empty(), Seq::<Slot>::empty());
    let sw = swap_instances(items);
    let o = if use_dfs {
        dfs(init, 0, items, true, dflt, l1, l2)
    } else {
        greedy(init, 0, items, true, dflt, l1, l2)
    };
    if use_dfs {
        lemma_swap_dfs(init, 0, items, dflt, l1, l2);
        lemma_dfs_idx(init, 0, items, true, dflt, l1, l2);
    } else {
        lemma_swap_greedy(init, 0, items, dflt, l1, l2);
        lemma_greedy_idx(init, 0, items, true, dflt, l1, l2);
    }
    if o is Some {
        let st = o->0;
        let fl = flat(st.1, st.0.len() as int);
        lemma_flat_members(st.1, st.0.len() as int);
        let a = state_rects(st, true, items);
        let b = state_rects(st, false, sw).map_values(|r: PlacedRect| swap_rect(r));
        assert forall|i: int| 0 <= i < a.len() implies a[i] == b[i] by {
            assert(st.1.contains(fl[i]));
            let m = choose|m: int| 0 <= m < st.1.len() && st.1[m] == fl[i];
            assert(st.1[m].idx < items.len());
            assert(sw[fl[i].idx as int] == swap_instance(items[fl[i].idx as int]));
        }
        assert(a =~= b);
    }
}

/// Whenever the greedy search finds a packing, the depth-first search from the same
/// start finds that same packing.
pub proof fn greedy_packing_is_dfs_packing(
    items: Seq<PackInstance>,
    t: bool,
    dflt: bool,
    l1: int,
    l2: int,
)
    requires
        search_outcome(items, t, false, dflt, l1, l2) is Some,
    ensures
        search_outcome(items, t, true, dflt, l1, l2) == search_outcome(items, t, false, dflt, l1, l2),
{
    let init = (Seq::<Lane>::empty(), Seq::<Slot>::empty());
    crate::search::dfs_extends_greedy(init, 0, items, t, dflt, l1, l2);
}

} // verus!
