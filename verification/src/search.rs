//! The two-stage packing searches (depth-first and greedy), along either axis.
//!
//! Along axis `t == false` (V–H) a *lane* is a column: it has an x position and a width,
//! and items stack in it along y.  Along `t == true` (H–V) a lane is a row.  A search
//! state is the list of lanes and the list of slots (placed items), each slot naming
//! its lane.

use vstd::prelude::*;
use crate::guillotine::{PackInstance, PlacedRect};

verus! {

/// A column (or row): position and length along the primary axis, and how far it is
/// filled along the secondary axis.
#[derive(Clone, Copy)]
pub struct Lane {
    pub pos: i32,
    pub len: i32,
    pub fill: i32,
}

/// An item placed in lane `lane`, with its primary/secondary position and length.
#[derive(Clone, Copy)]
pub struct Slot {
    pub lane: usize,
    pub ppos: i32,
    pub spos: i32,
    pub plen: i32,
    pub slen: i32,
    pub idx: usize,
    pub rotated: bool,
}

pub open spec fn max0(a: int) -> int {
    if a < 0 { 0 } else { a }
}

/// Whether the instance may be turned by 90°.
pub open spec fn allows_rotation(inst: PackInstance, default_allow_rotation: bool) -> bool {
    match inst.allow_rotation {
        Some(b) => b,
        None => default_allow_rotation,
    }
}

/// Length along the primary axis of `inst` in orientation `rot`.
pub open spec fn primary_len(inst: PackInstance, t: bool, rot: bool) -> i32 {
    if t != rot { inst.h } else { inst.w }
}

/// Length along the secondary axis of `inst` in orientation `rot`.
pub open spec fn secondary_len(inst: PackInstance, t: bool, rot: bool) -> i32 {
    if t != rot { inst.w } else { inst.h }
}

/// Total primary length taken by the lanes.
pub open spec fn used_len(lanes: Seq<Lane>) -> int
    decreases lanes.len(),
{
    if lanes.len() == 0 {
        0
    } else {
        used_len(lanes.drop_last()) + lanes.last().len
    }
}

/// Item `k` goes on top of lane `ci`.
pub open spec fn place_in(
    st: (Seq<Lane>, Seq<Slot>),
    ci: int,
    k: int,
    p: i32,
    s: i32,
    rot: bool,
) -> (Seq<Lane>, Seq<Slot>) {
    let lane = st.0[ci];
    (
        st.0.update(ci, Lane { pos: lane.pos, len: lane.len, fill: (lane.fill + s) as i32 }),
        st.1.push(
            Slot {
                lane: ci as usize,
                ppos: lane.pos,
                spos: lane.fill,
                plen: p,
                slen: s,
                idx: k as usize,
                rotated: rot,
            },
        ),
    )
}

/// Item `k` opens a new lane after the used length.
pub open spec fn open_lane(st: (Seq<Lane>, Seq<Slot>), k: int, p: i32, s: i32, rot: bool) -> (
    Seq<Lane>,
    Seq<Slot>,
) {
    let u = used_len(st.0) as i32;
    (
        st.0.push(Lane { pos: u, len: p, fill: s }),
        st.1.push(
            Slot {
                lane: st.0.len() as usize,
                ppos: u,
                spos: 0,
                plen: p,
                slen: s,
                idx: k as usize,
                rotated: rot,
            },
        ),
    )
}

/// Placements into existing lanes `ci, ci+1, …` of matching length with room left.
pub open spec fn lane_moves(
    st: (Seq<Lane>, Seq<Slot>),
    k: int,
    p: i32,
    s: i32,
    rot: bool,
    l2: int,
    ci: int,
) -> Seq<(Seq<Lane>, Seq<Slot>)>
    decreases st.0.len() - ci,
{
    if ci < 0 || ci >= st.0.len() {
        seq![]
    } else {
        let rest = lane_moves(st, k, p, s, rot, l2, ci + 1);
        if st.0[ci].len == p && st.0[ci].fill + s <= l2 {
            seq![place_in(st, ci, k, p, s, rot)] + rest
        } else {
            rest
        }
    }
}

/// A new lane, when the item fits both after the used length along the primary axis
/// and within the secondary limit.
pub open spec fn new_lane_moves(
    st: (Seq<Lane>, Seq<Slot>),
    k: int,
    p: i32,
    s: i32,
    rot: bool,
    l1: int,
    l2: int,
) -> Seq<(Seq<Lane>, Seq<Slot>)> {
    if used_len(st.0) + p <= l1 && s <= l2 {
        seq![open_lane(st, k, p, s, rot)]
    } else {
        seq![]
    }
}

/// The moves for item `k` in one orientation: existing lanes first, then a new lane.
pub open spec fn rot_moves(
    st: (Seq<Lane>, Seq<Slot>),
    k: int,
    inst: PackInstance,
    t: bool,
    rot: bool,
    l1: int,
    l2: int,
) -> Seq<(Seq<Lane>, Seq<Slot>)> {
    let p = primary_len(inst, t, rot);
    let s = secondary_len(inst, t, rot);
    lane_moves(st, k, p, s, rot, l2, 0) + new_lane_moves(st, k, p, s, rot, l1, l2)
}

/// The moves for item `k` from orientation index `ri` on (0: native, 1: turned).
pub open spec fn moves_from(
    st: (Seq<Lane>, Seq<Slot>),
    k: int,
    inst: PackInstance,
    t: bool,
    dflt: bool,
    ri: int,
    l1: int,
    l2: int,
) -> Seq<(Seq<Lane>, Seq<Slot>)> {
    (if ri <= 0 {
        rot_moves(st, k, inst, t, false, l1, l2)
    } else {
        seq![]
    }) + (if ri <= 1 && allows_rotation(inst, dflt) {
        rot_moves(st, k, inst, t, true, l1, l2)
    } else {
        seq![]
    })
}

/// All moves for item `k`, in the order the searches try them.
pub open spec fn moves(
    st: (Seq<Lane>, Seq<Slot>),
    k: int,
    inst: PackInstance,
    t: bool,
    dflt: bool,
    l1: int,
    l2: int,
) -> Seq<(Seq<Lane>, Seq<Slot>)> {
    moves_from(st, k, inst, t, dflt, 0, l1, l2)
}

/// Depth-first search: the first complete placement of items `k..` reachable from
/// `st`, trying moves in order.
pub open spec fn dfs(
    st: (Seq<Lane>, Seq<Slot>),
    k: int,
    items: Seq<PackInstance>,
    t: bool,
    dflt: bool,
    l1: int,
    l2: int,
) -> Option<(Seq<Lane>, Seq<Slot>)>
    decreases items.len() - k, 0int,
{
    if k >= items.len() || k < 0 {
        Some(st)
    } else {
        first_some(moves(st, k, items[k], t, dflt, l1, l2), k + 1, items, t, dflt, l1, l2)
    }
}

/// The first of the states `ms` from which the search for items `k..` succeeds.
pub open spec fn first_some(
    ms: Seq<(Seq<Lane>, Seq<Slot>)>,
    k: int,
    items: Seq<PackInstance>,
    t: bool,
    dflt: bool,
    l1: int,
    l2: int,
) -> Option<(Seq<Lane>, Seq<Slot>)>
    decreases items.len() - k, ms.len(),
{
    if ms.len() == 0 {
        None
    } else {
        match dfs(ms[0], k, items, t, dflt, l1, l2) {
            Some(r) => Some(r),
            None => first_some(ms.drop_first(), k, items, t, dflt, l1, l2),
        }
    }
}

/// Greedy packing: every item takes the first move available, with no backtracking.
pub open spec fn greedy(
    st: (Seq<Lane>, Seq<Slot>),
    k: int,
    items: Seq<PackInstance>,
    t: bool,
    dflt: bool,
    l1: int,
    l2: int,
) -> Option<(Seq<Lane>, Seq<Slot>)>
    decreases items.len() - k,
{
    if k >= items.len() || k < 0 {
        Some(st)
    } else {
        let ms = moves(st, k, items[k], t, dflt, l1, l2);
        if ms.len() == 0 {
            None
        } else {
            greedy(ms[0], k + 1, items, t, dflt, l1, l2)
        }
    }
}

/// The slots of lane `l`, in placement order.
pub open spec fn lane_slots(slots: Seq<Slot>, l: int) -> Seq<Slot>
    decreases slots.len(),
{
    if slots.len() == 0 {
        seq![]
    } else {
        let r = lane_slots(slots.drop_last(), l);
        if slots.last().lane == l {
            r.push(slots.last())
        } else {
            r
        }
    }
}

/// The slots of lanes `0..n`, lane by lane.
pub open spec fn flat(slots: Seq<Slot>, n: int) -> Seq<Slot>
    decreases n,
{
    if n <= 0 {
        seq![]
    } else {
        flat(slots, n - 1) + lane_slots(slots, n - 1)
    }
}

/// The sheet rectangle of a slot.
pub open spec fn slot_rect(sl: Slot, t: bool, items: Seq<PackInstance>) -> PlacedRect {
    PlacedRect {
        x: if t { sl.spos } else { sl.ppos },
        y: if t { sl.ppos } else { sl.spos },
        w: if t { sl.slen } else { sl.plen },
        h: if t { sl.plen } else { sl.slen },
        product_id: items[sl.idx as int].product_id,
        rotated: sl.rotated,
    }
}

/// The rectangles of a state, lane by lane, each lane in placement order.
pub open spec fn state_rects(st: (Seq<Lane>, Seq<Slot>), t: bool, items: Seq<PackInstance>) -> Seq<
    PlacedRect,
> {
    flat(st.1, st.0.len() as int).map_values(|sl: Slot| slot_rect(sl, t, items))
}

/// The rectangles of a search outcome.
pub open spec fn outcome_rects(
    o: Option<(Seq<Lane>, Seq<Slot>)>,
    t: bool,
    items: Seq<PackInstance>,
) -> Option<Seq<PlacedRect>> {
    match o {
        Some(st) => Some(state_rects(st, t, items)),
        None => None,
    }
}

pub open spec fn same_outcome(r: Option<Vec<PlacedRect>>, o: Option<Seq<PlacedRect>>) -> bool {
    match r {
        Some(v) => o == Some(v@),
        None => o is None,
    }
}

/// Search-state invariant: every slot names an item.
pub open spec fn state_wf(st: (Seq<Lane>, Seq<Slot>), n: int) -> bool {
    forall|j: int| 0 <= j < st.1.len() ==> #[trigger] st.1[j].idx < n
}

/// The used length is at most `2^31` per lane in size.
pub proof fn lemma_used_bound(lanes: Seq<Lane>)
    ensures
        -(lanes.len() * 0x8000_0000) <= used_len(lanes) <= lanes.len() * 0x8000_0000,
    decreases lanes.len(),
{
    if lanes.len() > 0 {
        lemma_used_bound(lanes.drop_last());
    }
}

pub proof fn lemma_used_update(lanes: Seq<Lane>, ci: int, lane: Lane)
    requires
        0 <= ci < lanes.len(),
        lane.len == lanes[ci].len,
    ensures
        used_len(lanes.update(ci, lane)) == used_len(lanes),
    decreases lanes.len(),
{
    let u = lanes.update(ci, lane);
    if ci == lanes.len() - 1 {
        assert(u.drop_last() =~= lanes.drop_last());
    } else {
        assert(u.drop_last() =~= lanes.drop_last().update(ci, lane));
        lemma_used_update(lanes.drop_last(), ci, lane);
    }
}

fn used_exec(lanes: &Vec<Lane>) -> (u: i128)
    ensures
        u == used_len(lanes@),
        -0x8000_0000_0000_0000_0000_0000 <= u <= 0x8000_0000_0000_0000_0000_0000,
{
    let mut u: i128 = 0;
    let mut i: usize = 0;
    while i < lanes.len()
        invariant
            0 <= i <= lanes@.len(),
            u == used_len(lanes@.take(i as int)),
        decreases lanes@.len() - i,
    {
        proof {
            assert(lanes@.take(i + 1).drop_last() =~= lanes@.take(i as int));
            lemma_used_bound(lanes@.take(i as int));
        }
        u = u + lanes[i].len as i128;
        i += 1;
    }
    assert(lanes@.take(lanes@.len() as int) =~= lanes@);
    proof {
        let n = lanes@.len() as int;
        lemma_used_bound(lanes@);
        assert(n * 0x8000_0000 <= 0x8000_0000_0000_0000_0000_0000) by (nonlinear_arith)
            requires
                0 <= n <= 0x1_0000_0000_0000_0000,
        ;
    }
    u
}

fn slot_rect_exec(sl: &Slot, t: bool, items: &[PackInstance]) -> (r: PlacedRect)
    requires
        sl.idx < items@.len(),
    ensures
        r == slot_rect(*sl, t, items@),
{
    PlacedRect {
        x: if t { sl.spos } else { sl.ppos },
        y: if t { sl.ppos } else { sl.spos },
        w: if t { sl.slen } else { sl.plen },
        h: if t { sl.plen } else { sl.slen },
        product_id: items[sl.idx].product_id.clone(),
        rotated: sl.rotated,
    }
}

/// The rectangles of the current state.
fn flatten_exec(lanes: &Vec<Lane>, slots: &Vec<Slot>, t: bool, items: &[PackInstance]) -> (out:
    Vec<PlacedRect>)
    requires
        forall|j: int| 0 <= j < slots@.len() ==> #[trigger] slots@[j].idx < items@.len(),
    ensures
        out@ == state_rects((lanes@, slots@), t, items@),
{
    let ghost f = |sl: Slot| slot_rect(sl, t, items@);
    let mut out: Vec<PlacedRect> = Vec::new();
    let mut l: usize = 0;
    while l < lanes.len()
        invariant
            0 <= l <= lanes@.len(),
            forall|j: int| 0 <= j < slots@.len() ==> #[trigger] slots@[j].idx < items@.len(),
            f == (|sl: Slot| slot_rect(sl, t, items@)),
            out@ == flat(slots@, l as int).map_values(f),
        decreases lanes@.len() - l,
    {
        let mut i: usize = 0;
        while i < slots.len()
            invariant
                0 <= l < lanes@.len(),
                0 <= i <= slots@.len(),
                forall|j: int| 0 <= j < slots@.len() ==> #[trigger] slots@[j].idx < items@.len(),
                f == (|sl: Slot| slot_rect(sl, t, items@)),
                out@ == flat(slots@, l as int).map_values(f) + lane_slots(
                    slots@.take(i as int),
                    l as int,
                ).map_values(f),
            decreases slots@.len() - i,
        {
            assert(slots@.take(i + 1).drop_last() =~= slots@.take(i as int));
            if slots[i].lane == l {
                let r = slot_rect_exec(&slots[i], t, items);
                out.push(r);
                assert(lane_slots(slots@.take(i + 1), l as int) == lane_slots(
                    slots@.take(i as int),
                    l as int,
                ).push(slots@[i as int]));
                assert(out@ =~= flat(slots@, l as int).map_values(f) + lane_slots(
                    slots@.take(i + 1),
                    l as int,
                ).map_values(f));
            }
            i += 1;
        }
        assert(slots@.take(slots@.len() as int) =~= slots@);
        assert(flat(slots@, l + 1) == flat(slots@, l as int) + lane_slots(slots@, l as int));
        assert(out@ =~= flat(slots@, l + 1).map_values(f));
        l += 1;
    }
    out
}

/// Whenever the greedy search finds a packing, the depth-first search finds the same one:
/// the greedy choices form the first branch that the depth-first search explores.
pub proof fn dfs_extends_greedy(
    st: (Seq<Lane>, Seq<Slot>),
    k: int,
    items: Seq<PackInstance>,
    t: bool,
    dflt: bool,
    l1: int,
    l2: int,
)
    requires
        greedy(st, k, items, t, dflt, l1, l2) is Some,
    ensures
        dfs(st, k, items, t, dflt, l1, l2) == greedy(st, k, items, t, dflt, l1, l2),
    decreases items.len() - k,
{
    if k < items.len() && k >= 0 {
        let ms = moves(st, k, items[k], t, dflt, l1, l2);
        dfs_extends_greedy(ms[0], k + 1, items, t, dflt, l1, l2);
    }
}

pub proof fn lemma_first_some_append(
    a: Seq<(Seq<Lane>, Seq<Slot>)>,
    b: Seq<(Seq<Lane>, Seq<Slot>)>,
    k: int,
    items: Seq<PackInstance>,
    t: bool,
    dflt: bool,
    l1: int,
    l2: int,
)
    ensures
        first_some(a + b, k, items, t, dflt, l1, l2) == (match first_some(
            a,
            k,
            items,
            t,
            dflt,
            l1,
            l2,
        ) {
            Some(r) => Some(r),
            None => first_some(b, k, items, t, dflt, l1, l2),
        }),
    decreases a.len(),
{
    if a.len() == 0 {
        assert(a + b =~= b);
    } else {
        assert((a + b).drop_first() =~= a.drop_first() + b);
        assert((a + b)[0] == a[0]);
        lemma_first_some_append(a.drop_first(), b, k, items, t, dflt, l1, l2);
    }
}

pub proof fn lemma_first_some_single(
    x: (Seq<Lane>, Seq<Slot>),
    k: int,
    items: Seq<PackInstance>,
    t: bool,
    dflt: bool,
    l1: int,
    l2: int,
)
    ensures
        first_some(seq![x], k, items, t, dflt, l1, l2) == dfs(x, k, items, t, dflt, l1, l2),
{
    let e = Seq::<(Seq<Lane>, Seq<Slot>)>::empty();
    assert(first_some(e, k, items, t, dflt, l1, l2) == None::<(Seq<Lane>, Seq<Slot>)>);
    assert(seq![x].drop_first() =~= e);
    assert(seq![x][0] == x);
}

/// The moves from orientation `ri` on are those of orientation `ri` followed by the rest.
pub proof fn lemma_moves_from_step(
    st: (Seq<Lane>, Seq<Slot>),
    k: int,
    inst: PackInstance,
    t: bool,
    dflt: bool,
    ri: int,
    l1: int,
    l2: int,
)
    requires
        ri == 0 || (ri == 1 && allows_rotation(inst, dflt)),
    ensures
        moves_from(st, k, inst, t, dflt, ri, l1, l2) =~= rot_moves(st, k, inst, t, ri == 1, l1, l2)
            + moves_from(st, k, inst, t, dflt, ri + 1, l1, l2),
{
}

fn dfs_exec(
    lanes: &mut Vec<Lane>,
    slots: &mut Vec<Slot>,
    k: usize,
    items: &[PackInstance],
    t: bool,
    dflt: bool,
    l1: i32,
    l2: i32,
) -> (r: Option<Vec<PlacedRect>>)
    requires
        k <= items@.len(),
        state_wf((old(lanes)@, old(slots)@), items@.len() as int),
    ensures
        same_outcome(
            r,
            outcome_rects(
                dfs((old(lanes)@, old(slots)@), k as int, items@, t, dflt, l1 as int, l2 as int),
                t,
                items@,
            ),
        ),
        r is None ==> final(lanes)@ == old(lanes)@ && final(slots)@ == old(slots)@,
    decreases items@.len() - k,
{
    let ghost st0: (Seq<Lane>, Seq<Slot>) = (lanes@, slots@);
    let ghost n = items@.len() as int;
    let len = items.len();
    if k >= len {
        return Some(flatten_exec(lanes, slots, t, items));
    }
    let inst = &items[k];
    let rot_ok = match inst.allow_rotation {
        Some(b) => b,
        None => dflt,
    };
    let nrot: usize = if rot_ok { 2 } else { 1 };
    let used = used_exec(lanes);
    let mut ri: usize = 0;
    while ri < nrot
        invariant
            k < items@.len(),
            n == items@.len(),
            len == items@.len(),
            *inst == items@[k as int],
            rot_ok == allows_rotation(*inst, dflt),
            nrot == (if rot_ok { 2usize } else { 1usize }),
            0 <= ri <= nrot,
            lanes@ == st0.0,
            slots@ == st0.1,
            st0 == (old(lanes)@, old(slots)@),
            used == used_len(st0.0),
            -0x8000_0000_0000_0000_0000_0000 <= used <= 0x8000_0000_0000_0000_0000_0000,
            state_wf(st0, n),
            dfs(st0, k as int, items@, t, dflt, l1 as int, l2 as int) == first_some(
                moves_from(st0, k as int, *inst, t, dflt, ri as int, l1 as int, l2 as int),
                k + 1,
                items@,
                t,
                dflt,
                l1 as int,
                l2 as int,
            ),
        decreases nrot - ri,
    {
        let rot = ri == 1;
        let p: i32 = if t != rot { inst.h } else { inst.w };
        let s: i32 = if t != rot { inst.w } else { inst.h };
        assert(p == primary_len(*inst, t, rot) && s == secondary_len(*inst, t, rot));
        let ghost rest = moves_from(st0, k as int, *inst, t, dflt, ri + 1, l1 as int, l2 as int);
        let ghost newl = new_lane_moves(st0, k as int, p, s, rot, l1 as int, l2 as int);
        proof {
            lemma_moves_from_step(st0, k as int, *inst, t, dflt, ri as int, l1 as int, l2 as int);
            assert(moves_from(st0, k as int, *inst, t, dflt, ri as int, l1 as int, l2 as int)
                =~= lane_moves(st0, k as int, p, s, rot, l2 as int, 0) + newl + rest);
        }
        let mut ci: usize = 0;
        while ci < lanes.len()
            invariant
                k < items@.len(),
                n == items@.len(),
                len == items@.len(),
                *inst == items@[k as int],
                0 <= ci <= lanes@.len(),
                lanes@ == st0.0,
                slots@ == st0.1,
                st0 == (old(lanes)@, old(slots)@),
                used == used_len(st0.0),
                -0x8000_0000_0000_0000_0000_0000 <= used <= 0x8000_0000_0000_0000_0000_0000,
                state_wf(st0, n),
                dfs(st0, k as int, items@, t, dflt, l1 as int, l2 as int) == first_some(
                    lane_moves(st0, k as int, p, s, rot, l2 as int, ci as int) + newl + rest,
                    k + 1,
                    items@,
                    t,
                    dflt,
                    l1 as int,
                    l2 as int,
                ),
            decreases lanes@.len() - ci,
        {
            let lane = lanes[ci];
            if lane.len == p && lane.fill as i64 + s as i64 <= l2 as i64 {
                let ghost next = place_in(st0, ci as int, k as int, p, s, rot);
                let ghost tail = lane_moves(st0, k as int, p, s, rot, l2 as int, ci + 1) + newl
                    + rest;
                assert(lane_moves(st0, k as int, p, s, rot, l2 as int, ci as int) + newl + rest
                    =~= seq![next] + tail);
                proof {
                    lemma_first_some_append(
                        seq![next],
                        tail,
                        k + 1,
                        items@,
                        t,
                        dflt,
                        l1 as int,
                        l2 as int,
                    );
                    lemma_first_some_single(next, k + 1, items@, t, dflt, l1 as int, l2 as int);
                }
                let newlane = Lane { pos: lane.pos, len: lane.len, fill: #[verifier::truncate] ((lane.fill as i64 + s as i64) as i32) };
                lanes.set(ci, newlane);
                slots.push(
                    Slot {
                        lane: ci,
                        ppos: lane.pos,
                        spos: lane.fill,
                        plen: p,
                        slen: s,
                        idx: k,
                        rotated: rot,
                    },
                );
                proof {
                    lemma_used_update(st0.0, ci as int, newlane);
                    assert(lanes@ == next.0);
                    assert(slots@ == next.1);
                    assert forall|j: int| 0 <= j < slots@.len() implies #[trigger] slots@[j].idx < n by {
                        if j < st0.1.len() {
                            assert(slots@[j] == st0.1[j]);
                        }
                    }
                }
                let out = dfs_exec(lanes, slots, k + 1, items, t, dflt, l1, l2);
                if out.is_some() {
                    assert(dfs(next, k + 1, items@, t, dflt, l1 as int, l2 as int) is Some);
                    assert(dfs(st0, k as int, items@, t, dflt, l1 as int, l2 as int) == dfs(
                        next,
                        k + 1,
                        items@,
                        t,
                        dflt,
                        l1 as int,
                        l2 as int,
                    ));
                    return out;
                }
                slots.pop();
                lanes.set(ci, lane);
                assert(slots@ =~= st0.1);
                assert(lanes@ =~= st0.0);
            } else {
                assert(lane_moves(st0, k as int, p, s, rot, l2 as int, ci as int) == lane_moves(
                    st0,
                    k as int,
                    p,
                    s,
                    rot,
                    l2 as int,
                    ci + 1,
                ));
            }
            ci += 1;
        }
        assert(lane_moves(st0, k as int, p, s, rot, l2 as int, ci as int) =~= Seq::<
            (Seq<Lane>, Seq<Slot>),
        >::empty());
        assert(lane_moves(st0, k as int, p, s, rot, l2 as int, ci as int) + newl + rest =~= newl
            + rest);
        if used + p as i128 <= l1 as i128 && s <= l2 {
            let ghost next = open_lane(st0, k as int, p, s, rot);
            assert(newl =~= seq![next]);
            proof {
                lemma_first_some_append(
                    seq![next],
                    rest,
                    k + 1,
                    items@,
                    t,
                    dflt,
                    l1 as int,
                    l2 as int,
                );
                lemma_first_some_single(next, k + 1, items@, t, dflt, l1 as int, l2 as int);
            }
            let pos = #[verifier::truncate] (used as i32);
            lanes.push(Lane { pos: pos, len: p, fill: s });
            slots.push(
                Slot { lane: lanes.len() - 1, ppos: pos, spos: 0, plen: p, slen: s, idx: k, rotated: rot },
            );
            proof {
                assert(lanes@ == next.0);
                assert(slots@ == next.1);
                assert(lanes@.drop_last() =~= st0.0);
                assert forall|j: int| 0 <= j < slots@.len() implies #[trigger] slots@[j].idx < n by {
                    if j < st0.1.len() {
                        assert(slots@[j] == st0.1[j]);
                    }
                }
            }
            let out = dfs_exec(lanes, slots, k + 1, items, t, dflt, l1, l2);
            lanes.pop();
            slots.pop();
            if out.is_some() {
                assert(dfs(next, k + 1, items@, t, dflt, l1 as int, l2 as int) is Some);
                assert(dfs(st0, k as int, items@, t, dflt, l1 as int, l2 as int) == dfs(
                    next,
                    k + 1,
                    items@,
                    t,
                    dflt,
                    l1 as int,
                    l2 as int,
                ));
                return out;
            }
            assert(slots@ =~= st0.1);
            assert(lanes@ =~= st0.0);
        } else {
            assert(newl =~= Seq::<(Seq<Lane>, Seq<Slot>)>::empty());
            assert(newl + rest =~= rest);
        }
        ri += 1;
    }
    assert(moves_from(st0, k as int, *inst, t, dflt, ri as int, l1 as int, l2 as int) =~= Seq::<
        (Seq<Lane>, Seq<Slot>),
    >::empty());
    None
}

/// Greedy search from the empty state.
fn greedy_exec(items: &[PackInstance], t: bool, dflt: bool, l1: i32, l2: i32) -> (r: Option<
    Vec<PlacedRect>,
>)
    ensures
        same_outcome(
            r,
            outcome_rects(
                greedy(
                    (Seq::empty(), Seq::empty()),
                    0,
                    items@,
                    t,
                    dflt,
                    l1 as int,
                    l2 as int,
                ),
                t,
                items@,
            ),
        ),
{
    let ghost init: (Seq<Lane>, Seq<Slot>) = (Seq::empty(), Seq::empty());
    let ghost n = items@.len() as int;
    let len = items.len();
    let mut lanes: Vec<Lane> = Vec::new();
    let mut slots: Vec<Slot> = Vec::new();
    let mut k: usize = 0;
    while k < len
        invariant
            0 <= k <= len,
            init == (Seq::<Lane>::empty(), Seq::<Slot>::empty()),
            len == items@.len(),
            n == items@.len(),
            state_wf((lanes@, slots@), n),
            greedy(init, 0, items@, t, dflt, l1 as int, l2 as int) == greedy(
                (lanes@, slots@),
                k as int,
                items@,
                t,
                dflt,
                l1 as int,
                l2 as int,
            ),
        decreases len - k,
    {
        let ghost st = (lanes@, slots@);
        let ghost ms = moves(st, k as int, items@[k as int], t, dflt, l1 as int, l2 as int);
        let inst = &items[k];
        let rot_ok = match inst.allow_rotation {
            Some(b) => b,
            None => dflt,
        };
        let nrot: usize = if rot_ok { 2 } else { 1 };
        let used = used_exec(&lanes);
        let mut done = false;
        let mut ri: usize = 0;
        while ri < nrot && !done
            invariant
                k < items@.len(),
                n == items@.len(),
                *inst == items@[k as int],
                rot_ok == allows_rotation(*inst, dflt),
                nrot == (if rot_ok { 2usize } else { 1usize }),
                0 <= ri <= nrot,
                used == used_len(st.0),
                -0x8000_0000_0000_0000_0000_0000 <= used <= 0x8000_0000_0000_0000_0000_0000,
                state_wf(st, n),
                ms == moves(st, k as int, *inst, t, dflt, l1 as int, l2 as int),
                init == (Seq::<Lane>::empty(), Seq::<Slot>::empty()),
                greedy(init, 0, items@, t, dflt, l1 as int, l2 as int) == greedy(
                    st,
                    k as int,
                    items@,
                    t,
                    dflt,
                    l1 as int,
                    l2 as int,
                ),
                !done ==> lanes@ == st.0 && slots@ == st.1 && ms == moves_from(
                    st,
                    k as int,
                    *inst,
                    t,
                    dflt,
                    ri as int,
                    l1 as int,
                    l2 as int,
                ),
                done ==> ms.len() > 0 && (lanes@, slots@) == ms[0] && state_wf((lanes@, slots@), n),
            decreases nrot - ri,
        {
            let rot = ri == 1;
            let p: i32 = if t != rot { inst.h } else { inst.w };
            let s: i32 = if t != rot { inst.w } else { inst.h };
            assert(p == primary_len(*inst, t, rot) && s == secondary_len(*inst, t, rot));
            let ghost rest = moves_from(st, k as int, *inst, t, dflt, ri + 1, l1 as int, l2 as int);
            let ghost newl = new_lane_moves(st, k as int, p, s, rot, l1 as int, l2 as int);
            let ghost lm0 = lane_moves(st, k as int, p, s, rot, l2 as int, 0);
            proof {
                lemma_moves_from_step(st, k as int, *inst, t, dflt, ri as int, l1 as int, l2 as int);
                assert(moves_from(st, k as int, *inst, t, dflt, ri as int, l1 as int, l2 as int)
                    =~= lm0 + newl + rest);
            }
            let mut ci: usize = 0;
            while ci < lanes.len() && !done
                invariant
                    k < items@.len(),
                    n == items@.len(),
                    used == used_len(st.0),
                    -0x8000_0000_0000_0000_0000_0000 <= used <= 0x8000_0000_0000_0000_0000_0000,
                    state_wf(st, n),
                    ms == lm0 + newl + rest,
                    lm0 == lane_moves(st, k as int, p, s, rot, l2 as int, 0),
                    !done ==> lanes@ == st.0 && slots@ == st.1 && 0 <= ci <= lanes@.len() && lm0
                        == lane_moves(st, k as int, p, s, rot, l2 as int, ci as int),
                    done ==> ms.len() > 0 && (lanes@, slots@) == ms[0] && state_wf((lanes@, slots@), n),
                decreases lanes@.len() - ci,
            {
                let lane = lanes[ci];
                if lane.len == p && lane.fill as i64 + s as i64 <= l2 as i64 {
                    let ghost next = place_in(st, ci as int, k as int, p, s, rot);
                    assert(lm0 =~= seq![next] + lane_moves(
                        st,
                        k as int,
                        p,
                        s,
                        rot,
                        l2 as int,
                        ci + 1,
                    ));
                    assert(ms[0] == next);
                    let newlane = Lane { pos: lane.pos, len: lane.len, fill: #[verifier::truncate] ((lane.fill as i64 + s as i64) as i32) };
                    lanes.set(ci, newlane);
                    slots.push(
                        Slot {
                            lane: ci,
                            ppos: lane.pos,
                            spos: lane.fill,
                            plen: p,
                            slen: s,
                            idx: k,
                            rotated: rot,
                        },
                    );
                    proof {
                        lemma_used_update(st.0, ci as int, newlane);
                        assert(lanes@ == next.0);
                        assert(slots@ == next.1);
                        assert forall|j: int| 0 <= j < slots@.len() implies #[trigger] slots@[j].idx
                            < n by {
                            if j < st.1.len() {
                                assert(slots@[j] == st.1[j]);
                            }
                        }
                    }
                    done = true;
                } else {
                    assert(lane_moves(st, k as int, p, s, rot, l2 as int, ci as int) == lane_moves(
                        st,
                        k as int,
                        p,
                        s,
                        rot,
                        l2 as int,
                        ci + 1,
                    ));
                }
                ci += 1;
            }
            if !done {
                assert(lane_moves(st, k as int, p, s, rot, l2 as int, ci as int) =~= Seq::<
                    (Seq<Lane>, Seq<Slot>),
                >::empty());
                assert(ms =~= newl + rest);
                if used + p as i128 <= l1 as i128 && s <= l2 {
                    let ghost next = open_lane(st, k as int, p, s, rot);
                    assert(newl =~= seq![next]);
                    assert(ms[0] == next);
                    let pos = #[verifier::truncate] (used as i32);
                    lanes.push(Lane { pos: pos, len: p, fill: s });
                    slots.push(
                        Slot {
                            lane: lanes.len() - 1,
                            ppos: pos,
                            spos: 0,
                            plen: p,
                            slen: s,
                            idx: k,
                            rotated: rot,
                        },
                    );
                    proof {
                        assert(lanes@ == next.0);
                        assert(slots@ == next.1);
                        assert(lanes@.drop_last() =~= st.0);
                        assert forall|j: int| 0 <= j < slots@.len() implies #[trigger] slots@[j].idx
                            < n by {
                            if j < st.1.len() {
                                assert(slots@[j] == st.1[j]);
                            }
                        }
                    }
                    done = true;
                } else {
                    assert(newl =~= Seq::<(Seq<Lane>, Seq<Slot>)>::empty());
                    assert(ms =~= rest);
                }
            }
            ri += 1;
        }
        if !done {
            assert(moves_from(st, k as int, *inst, t, dflt, ri as int, l1 as int, l2 as int)
                =~= Seq::<(Seq<Lane>, Seq<Slot>)>::empty());
            assert(ms.len() == 0);
            assert(greedy(st, k as int, items@, t, dflt, l1 as int, l2 as int) is None);
            assert(greedy(init, 0, items@, t, dflt, l1 as int, l2 as int) is None);
            return None;
        }
        k += 1;
    }
    Some(flatten_exec(&lanes, &slots, t, items))
}

/// The outcome of packing `items` along axis `t`: depth-first when `use_dfs`, greedy
/// otherwise, starting from no lanes.
pub open spec fn search_outcome(
    items: Seq<PackInstance>,
    t: bool,
    use_dfs: bool,
    dflt: bool,
    l1: int,
    l2: int,
) -> Option<Seq<PlacedRect>> {
    let init = (Seq::<Lane>::empty(), Seq::<Slot>::empty());
    outcome_rects(
        if use_dfs {
            dfs(init, 0, items, t, dflt, l1, l2)
        } else {
            greedy(init, 0, items, t, dflt, l1, l2)
        },
        t,
        items,
    )
}

/// Packs `items` along axis `t` with primary limit `l1` and secondary limit `l2`:
/// depth-first when `use_dfs`, greedy otherwise; `None` when the search finds no packing.
pub fn search_exec(items: &[PackInstance], t: bool, use_dfs: bool, dflt: bool, l1: i32, l2: i32) -> (r:
    Option<Vec<PlacedRect>>)
    ensures
        same_outcome(r, search_outcome(items@, t, use_dfs, dflt, l1 as int, l2 as int)),
{
    if use_dfs {
        let mut lanes: Vec<Lane> = Vec::new();
        let mut slots: Vec<Slot> = Vec::new();
        proof {
            assert(used_len(lanes@) == 0);
        }
        dfs_exec(&mut lanes, &mut slots, 0, items, t, dflt, l1, l2)
    } else {
        greedy_exec(items, t, dflt, l1, l2)
    }
}


/// Each greedy step takes the item's first available move: the greedy search from `st`
/// is the greedy search from that move, and it fails when the item has no move.
pub proof fn greedy_takes_first_move(
    st: (Seq<Lane>, Seq<Slot>),
    k: int,
    items: Seq<PackInstance>,
    t: bool,
    dflt: bool,
    l1: int,
    l2: int,
)
    requires
        0 <= k < items.len(),
    ensures
        moves(st, k, items[k], t, dflt, l1, l2).len() == 0 ==> greedy(st, k, items, t, dflt, l1, l2) is None,
        moves(st, k, items[k], t, dflt, l1, l2).len() > 0 ==> greedy(st, k, items, t, dflt, l1, l2)
            == greedy(moves(st, k, items[k], t, dflt, l1, l2)[0], k + 1, items, t, dflt, l1, l2),
{
}

/// When an item has no move in its own orientation but may turn and has a move turned,
/// the greedy search takes the first turned move.
pub proof fn greedy_turns_when_needed(
    st: (Seq<Lane>, Seq<Slot>),
    k: int,
    items: Seq<PackInstance>,
    t: bool,
    dflt: bool,
    l1: int,
    l2: int,
)
    requires
        0 <= k < items.len(),
        rot_moves(st, k, items[k], t, false, l1, l2).len() == 0,
        allows_rotation(items[k], dflt),
        rot_moves(st, k, items[k], t, true, l1, l2).len() > 0,
    ensures
        greedy(st, k, items, t, dflt, l1, l2) == greedy(
            rot_moves(st, k, items[k], t, true, l1, l2)[0],
            k + 1,
            items,
            t,
            dflt,
            l1,
            l2,
        ),
{
    let ms = moves(st, k, items[k], t, dflt, l1, l2);
    let b = rot_moves(st, k, items[k], t, true, l1, l2);
    assert(ms =~= rot_moves(st, k, items[k], t, false, l1, l2) + b);
    assert(ms[0] == b[0]);
}

/// The lanes after `k` identical items stacked in one lane of length `p`, `s` each.
spec fn one_stack(k: int, p: i32, s: i32) -> Seq<Lane> {
    if k == 0 {
        seq![]
    } else {
        seq![Lane { pos: 0, len: p, fill: (k * s) as i32 }]
    }
}

proof fn lemma_greedy_stack(
    st: (Seq<Lane>, Seq<Slot>),
    k: int,
    items: Seq<PackInstance>,
    t: bool,
    dflt: bool,
    l1: int,
    l2: int,
    r: bool,
)
    requires
        0 <= k <= items.len(),
        items.len() > 0,
        forall|i: int|
            0 <= i < items.len() ==> (#[trigger] items[i]).w == items[0].w && items[i].h == items[0].h
                && items[i].allow_rotation == items[0].allow_rotation,
        items[0].w >= 1,
        items[0].h >= 1,
        r ==> allows_rotation(items[0], dflt) && (primary_len(items[0], t, false) > l1 || secondary_len(
            items[0],
            t,
            false,
        ) > l2),
        primary_len(items[0], t, r) <= l1,
        items.len() * secondary_len(items[0], t, r) <= l2,
        l2 <= i32::MAX,
        st.0 == one_stack(k, primary_len(items[0], t, r), secondary_len(items[0], t, r)),
    ensures
        greedy(st, k, items, t, dflt, l1, l2) is Some,
    decreases items.len() - k,
{
    let n = items.len() as int;
    if k < n {
        let inst = items[k];
        let p = primary_len(items[0], t, r);
        let s = secondary_len(items[0], t, r);
        let p0 = primary_len(items[0], t, false);
        let s0 = secondary_len(items[0], t, false);
        assert(inst.w == items[0].w && inst.h == items[0].h && inst.allow_rotation == items[0].allow_rotation);
        assert(primary_len(inst, t, r) == p && secondary_len(inst, t, r) == s);
        assert(primary_len(inst, t, false) == p0 && secondary_len(inst, t, false) == s0);
        assert(allows_rotation(inst, dflt) == allows_rotation(items[0], dflt));
        assert(0 <= k * s <= n * s) by (nonlinear_arith)
            requires
                0 <= k <= n,
                s >= 1,
        ;
        assert((k + 1) * s <= n * s) by (nonlinear_arith)
            requires
                k + 1 <= n,
                s >= 1,
        ;
        assert(k * s + s == (k + 1) * s) by (nonlinear_arith);
        let ms = moves(st, k, inst, t, dflt, l1, l2);
        let next = if k == 0 {
            open_lane(st, k, p, s, r)
        } else {
            place_in(st, 0, k, p, s, r)
        };
        if k == 0 {
            assert(used_len(st.0) == 0);
            assert(lane_moves(st, k, p0, s0, false, l2, 0) =~= Seq::<(Seq<Lane>, Seq<Slot>)>::empty());
            assert(lane_moves(st, k, p, s, r, l2, 0) =~= Seq::<(Seq<Lane>, Seq<Slot>)>::empty());
            assert(next.0 =~= one_stack(1, p, s));
        } else {
            assert(st.0.drop_last() =~= Seq::<Lane>::empty());
            assert(used_len(st.0.drop_last()) == 0);
            assert(st.0.last().len == p);
            assert(used_len(st.0) == p);
            assert(st.0[0].fill == k * s);
            assert(lane_moves(st, k, p, s, r, l2, 1) =~= Seq::<(Seq<Lane>, Seq<Slot>)>::empty());
            assert(lane_moves(st, k, p, s, r, l2, 0) =~= seq![next]);
            if r {
                assert(p0 != p) by {
                    if p0 == p {
                        assert(s0 == s);
                    }
                }
                assert(lane_moves(st, k, p0, s0, false, l2, 1) =~= Seq::<(Seq<Lane>, Seq<Slot>)>::empty());
                assert(lane_moves(st, k, p0, s0, false, l2, 0) =~= Seq::<(Seq<Lane>, Seq<Slot>)>::empty());
            }
            assert(next.0 =~= one_stack(k + 1, p, s));
        }
        if r {
            assert(new_lane_moves(st, k, p0, s0, false, l1, l2) =~= Seq::<(Seq<Lane>, Seq<Slot>)>::empty());
            assert(rot_moves(st, k, inst, t, false, l1, l2).len() == 0);
            assert(rot_moves(st, k, inst, t, true, l1, l2)[0] == next);
            greedy_turns_when_needed(st, k, items, t, dflt, l1, l2);
        } else {
            assert(ms[0] == next);
        }
        lemma_greedy_stack(next, k + 1, items, t, dflt, l1, l2, r);
    }
}

/// Identical items (same sides and rotation setting, each side at least 1) that stack in
/// one lane in orientation `r` — turned only where they may turn and where their own
/// orientation does not fit the sheet at all — are packed by the greedy search.
pub proof fn greedy_stacks_identical_items(
    items: Seq<PackInstance>,
    t: bool,
    dflt: bool,
    l1: int,
    l2: int,
    r: bool,
)
    requires
        items.len() > 0,
        forall|i: int|
            0 <= i < items.len() ==> (#[trigger] items[i]).w == items[0].w && items[i].h == items[0].h
                && items[i].allow_rotation == items[0].allow_rotation,
        items[0].w >= 1,
        items[0].h >= 1,
        r ==> allows_rotation(items[0], dflt) && (primary_len(items[0], t, false) > l1 || secondary_len(
            items[0],
            t,
            false,
        ) > l2),
        primary_len(items[0], t, r) <= l1,
        items.len() * secondary_len(items[0], t, r) <= l2,
        l2 <= i32::MAX,
    ensures
        search_outcome(items, t, false, dflt, l1, l2) is Some,
{
    let init = (Seq::<Lane>::empty(), Seq::<Slot>::empty());
    assert(init.0 =~= one_stack(0, primary_len(items[0], t, r), secondary_len(items[0], t, r)));
    lemma_greedy_stack(init, 0, items, t, dflt, l1, l2, r);
}

} // verus!
