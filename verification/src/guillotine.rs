//! Two-stage guillotine packing (V–H columns / H–V rows) and its layout checks.

use vstd::prelude::*;
use crate::search::{same_outcome, search_outcome, search_exec};
use crate::sorting::{
    insert_by, sort_by, lemma_insert_at, lemma_sort_prefix_step, keys_distinct, lemma_sort_distinct,
    lemma_sort_elements, ordered_by, strict_weak_on, lemma_sort_ordered,
};
use crate::text::{seq_lt, decimal, str_lt, chars_lt, push_decimal, push_str_chars};

verus! {

/// A rectangle placed on the sheet (origin top-left, y down).
#[derive(Debug, Clone)]
pub struct PlacedRect {
    pub x: i32,
    pub y: i32,
    pub w: i32,
    pub h: i32,
    pub product_id: String,
    pub rotated: bool,
}

/// One item to pack: a product's dimensions and its own rotation setting
/// (`None` follows the packing default).
#[derive(Debug, Clone)]
pub struct PackInstance {
    pub product_id: String,
    pub w: i32,
    pub h: i32,
    pub allow_rotation: Option<bool>,
}

// ---------------------------------------------------------------------------
// Axis view of a rectangle.  With `t == false` (V–H) the primary axis is x:
// rectangles are grouped into columns by (x, w) and stacked along y.  With
// `t == true` (H–V) the roles of the axes are swapped.
// ---------------------------------------------------------------------------

/// The (position, length) of a rectangle along the primary axis.
pub open spec fn key_of(r: PlacedRect, t: bool) -> (i32, i32) {
    if t { (r.y, r.h) } else { (r.x, r.w) }
}

/// The (position, length) of a rectangle along the secondary axis.
pub open spec fn item_of(r: PlacedRect, t: bool) -> (i32, i32) {
    if t { (r.x, r.w) } else { (r.y, r.h) }
}

/// The distinct primary keys of `s`, in order of first occurrence.
pub open spec fn keys_of(s: Seq<PlacedRect>, t: bool) -> Seq<(i32, i32)>
    decreases s.len(),
{
    if s.len() == 0 {
        seq![]
    } else {
        let k = keys_of(s.drop_last(), t);
        if k.contains(key_of(s.last(), t)) {
            k
        } else {
            k.push(key_of(s.last(), t))
        }
    }
}

/// The secondary (position, length) of every rectangle of `s` whose primary key is `key`,
/// in input order.
pub open spec fn group_of(s: Seq<PlacedRect>, t: bool, key: (i32, i32)) -> Seq<(i32, i32)>
    decreases s.len(),
{
    if s.len() == 0 {
        seq![]
    } else {
        let g = group_of(s.drop_last(), t, key);
        if key_of(s.last(), t) == key {
            g.push(item_of(s.last(), t))
        } else {
            g
        }
    }
}

/// Strict precedence of (position, length) pairs by position.
pub open spec fn by_position() -> spec_fn((i32, i32), (i32, i32)) -> bool {
    |a: (i32, i32), b: (i32, i32)| a.0 < b.0
}

/// The pairs of `s`, stably sorted by position.
pub open spec fn sort_by_position(s: Seq<(i32, i32)>) -> Seq<(i32, i32)> {
    sort_by(s, by_position())
}

/// `g` tiles a segment that starts at `start`: each piece begins where the previous one
/// ended, and the last one ends no later than `limit`.
pub open spec fn stacks_from(g: Seq<(i32, i32)>, start: int, limit: int) -> bool
    decreases g.len(),
{
    if g.len() == 0 {
        start <= limit
    } else {
        g[0].0 == start && stacks_from(g.drop_first(), start + g[0].1, limit)
    }
}

/// A rectangle lies within the sheet `[0, wp] × [0, hp]`.
pub open spec fn rect_inside(r: PlacedRect, wp: int, hp: int) -> bool {
    r.x >= 0 && r.y >= 0 && r.x + r.w <= wp && r.y + r.h <= hp
}

pub open spec fn all_inside(s: Seq<PlacedRect>, wp: int, hp: int) -> bool {
    forall|i: int| 0 <= i < s.len() ==> #[trigger] rect_inside(s[i], wp, hp)
}

/// Two rectangles share interior area (touching edges do not count).
pub open spec fn overlap(a: PlacedRect, b: PlacedRect) -> bool {
    !(a.x + a.w <= b.x || b.x + b.w <= a.x) && !(a.y + a.h <= b.y || b.y + b.h <= a.y)
}

pub open spec fn no_overlap(s: Seq<PlacedRect>) -> bool {
    forall|i: int, j: int| 0 <= i < j < s.len() ==> !#[trigger] overlap(s[i], s[j])
}

/// The two-stage structure along axis `t`: every group stacks from 0 within the
/// secondary limit, and the groups, sorted by position, tile the primary axis from 0.
pub open spec fn stages_ok(s: Seq<PlacedRect>, t: bool, l1: int, l2: int) -> bool {
    let keys = keys_of(s, t);
    &&& forall|j: int|
        0 <= j < keys.len() ==> stacks_from(
            sort_by_position(#[trigger] group_of(s, t, keys[j])),
            0,
            l2,
        )
    &&& stacks_from(sort_by_position(keys), 0, l1)
}

/// A valid two-stage layout along axis `t` on a `wp × hp` sheet.  Groups that share a
/// position are ordered by their first rectangle.
pub open spec fn two_stage_ok(s: Seq<PlacedRect>, t: bool, wp: int, hp: int) -> bool {
    s.len() == 0 || (all_inside(s, wp, hp) && no_overlap(s) && stages_ok(
        s,
        t,
        if t { hp } else { wp },
        if t { wp } else { hp },
    ))
}

fn rects_overlap(a: &PlacedRect, b: &PlacedRect) -> (r: bool)
    ensures
        r == overlap(*a, *b),
{
    let (ax, aw, bx, bw) = (a.x as i64, a.w as i64, b.x as i64, b.w as i64);
    let (ay, ah, by, bh) = (a.y as i64, a.h as i64, b.y as i64, b.h as i64);
    if ax + aw <= bx || bx + bw <= ax {
        return false;
    }
    if ay + ah <= by || by + bh <= ay {
        return false;
    }
    true
}

fn all_inside_sheet(rects: &[PlacedRect], wp: i32, hp: i32) -> (r: bool)
    ensures
        r == all_inside(rects@, wp as int, hp as int),
{
    let mut i: usize = 0;
    while i < rects.len()
        invariant
            0 <= i <= rects@.len(),
            forall|k: int| 0 <= k < i ==> #[trigger] rect_inside(rects@[k], wp as int, hp as int),
        decreases rects@.len() - i,
    {
        let r = &rects[i];
        if !(r.x >= 0 && r.y >= 0 && r.x as i64 + r.w as i64 <= wp as i64 && r.y as i64
            + r.h as i64 <= hp as i64) {
            assert(!rect_inside(rects@[i as int], wp as int, hp as int));
            return false;
        }
        i += 1;
    }
    true
}

fn no_overlaps(rects: &[PlacedRect]) -> (r: bool)
    ensures
        r == no_overlap(rects@),
{
    let n = rects.len();
    let mut i: usize = 0;
    while i < n
        invariant
            n == rects@.len(),
            0 <= i <= n,
            forall|a: int, b: int| 0 <= a < i && a < b < n ==> !#[trigger] overlap(rects@[a], rects@[b]),
        decreases n - i,
    {
        let mut j: usize = i + 1;
        while j < n
            invariant
                n == rects@.len(),
                0 <= i < n,
                i + 1 <= j <= n,
                forall|a: int, b: int| 0 <= a < i && a < b < n ==> !#[trigger] overlap(rects@[a], rects@[b]),
                forall|b: int| i < b < j ==> !#[trigger] overlap(rects@[i as int], rects@[b]),
            decreases n - j,
        {
            if rects_overlap(&rects[i], &rects[j]) {
                return false;
            }
            j += 1;
        }
        i += 1;
    }
    true
}

fn key_exec(r: &PlacedRect, t: bool) -> (k: (i32, i32))
    ensures
        k == key_of(*r, t),
{
    if t { (r.y, r.h) } else { (r.x, r.w) }
}

fn item_exec(r: &PlacedRect, t: bool) -> (k: (i32, i32))
    ensures
        k == item_of(*r, t),
{
    if t { (r.x, r.w) } else { (r.y, r.h) }
}

fn contains_pair(v: &Vec<(i32, i32)>, p: (i32, i32)) -> (b: bool)
    ensures
        b == v@.contains(p),
{
    let mut i: usize = 0;
    while i < v.len()
        invariant
            0 <= i <= v@.len(),
            forall|k: int| 0 <= k < i ==> v@[k] != p,
        decreases v@.len() - i,
    {
        if v[i].0 == p.0 && v[i].1 == p.1 {
            assert(v@[i as int] == p);
            return true;
        }
        i += 1;
    }
    false
}

fn keys_exec(rects: &[PlacedRect], t: bool) -> (keys: Vec<(i32, i32)>)
    ensures
        keys@ == keys_of(rects@, t),
{
    let mut keys: Vec<(i32, i32)> = Vec::new();
    let mut i: usize = 0;
    while i < rects.len()
        invariant
            0 <= i <= rects@.len(),
            keys@ == keys_of(rects@.take(i as int), t),
        decreases rects@.len() - i,
    {
        assert(rects@.take(i + 1).drop_last() =~= rects@.take(i as int));
        let k = key_exec(&rects[i], t);
        if !contains_pair(&keys, k) {
            keys.push(k);
        }
        i += 1;
    }
    assert(rects@.take(rects@.len() as int) =~= rects@);
    keys
}

fn group_exec(rects: &[PlacedRect], t: bool, key: (i32, i32)) -> (g: Vec<(i32, i32)>)
    ensures
        g@ == group_of(rects@, t, key),
{
    let mut g: Vec<(i32, i32)> = Vec::new();
    let mut i: usize = 0;
    while i < rects.len()
        invariant
            0 <= i <= rects@.len(),
            g@ == group_of(rects@.take(i as int), t, key),
        decreases rects@.len() - i,
    {
        assert(rects@.take(i + 1).drop_last() =~= rects@.take(i as int));
        let k = key_exec(&rects[i], t);
        if k.0 == key.0 && k.1 == key.1 {
            g.push(item_exec(&rects[i], t));
        }
        i += 1;
    }
    assert(rects@.take(rects@.len() as int) =~= rects@);
    g
}

fn sort_pairs_exec(v: &Vec<(i32, i32)>) -> (out: Vec<(i32, i32)>)
    ensures
        out@ == sort_by_position(v@),
{
    let mut out: Vec<(i32, i32)> = Vec::new();
    let mut i: usize = 0;
    while i < v.len()
        invariant
            0 <= i <= v@.len(),
            out@ == sort_by(v@.take(i as int), by_position()),
        decreases v@.len() - i,
    {
        let p = v[i];
        let mut j: usize = out.len();
        while j > 0 && p.0 < out[j - 1].0
            invariant
                0 <= j <= out@.len(),
                forall|k: int| j <= k < out@.len() ==> #[trigger] (by_position())(p, out@[k]),
            decreases j,
        {
            j -= 1;
        }
        proof {
            lemma_insert_at(out@, p, by_position(), j as int);
            lemma_sort_prefix_step(v@, by_position(), i as int);
        }
        out.insert(j, p);
        i += 1;
    }
    assert(v@.take(v@.len() as int) =~= v@);
    out
}

fn stacks_exec(g: &Vec<(i32, i32)>, limit: i64) -> (b: bool)
    ensures
        b == stacks_from(g@, 0, limit as int),
{
    let mut pos: i64 = 0;
    let mut i: usize = 0;
    assert(g@.skip(0) =~= g@);
    while i < g.len()
        invariant
            0 <= i <= g@.len(),
            -0x1_0000_0000 <= pos <= 0x1_0000_0000,
            stacks_from(g@, 0, limit as int) == stacks_from(g@.skip(i as int), pos as int, limit as int),
        decreases g@.len() - i,
    {
        assert(g@.skip(i as int).drop_first() =~= g@.skip(i + 1));
        assert(g@.skip(i as int)[0] == g@[i as int]);
        if g[i].0 as i64 != pos {
            return false;
        }
        pos = pos + g[i].1 as i64;
        i += 1;
    }
    assert(g@.skip(i as int).len() == 0);
    pos <= limit
}

/// Checks the two-stage structure along axis `t`.
fn verify_two_stage_axis(rects: &[PlacedRect], t: bool, wp: i32, hp: i32) -> (b: bool)
    ensures
        b == two_stage_ok(rects@, t, wp as int, hp as int),
{
    if rects.len() == 0 {
        return true;
    }
    if !all_inside_sheet(rects, wp, hp) || !no_overlaps(rects) {
        return false;
    }
    let l1: i64 = if t { hp as i64 } else { wp as i64 };
    let l2: i64 = if t { wp as i64 } else { hp as i64 };
    let keys = keys_exec(rects, t);
    let mut j: usize = 0;
    while j < keys.len()
        invariant
            0 <= j <= keys@.len(),
            keys@ == keys_of(rects@, t),
            l2 == (if t { wp as int } else { hp as int }),
            forall|jj: int|
                0 <= jj < j ==> stacks_from(
                    sort_by_position(#[trigger] group_of(rects@, t, keys@[jj])),
                    0,
                    l2 as int,
                ),
        decreases keys@.len() - j,
    {
        let g = group_exec(rects, t, keys[j]);
        let sg = sort_pairs_exec(&g);
        if !stacks_exec(&sg, l2) {
            return false;
        }
        j += 1;
    }
    let sk = sort_pairs_exec(&keys);
    stacks_exec(&sk, l1)
}

/// V–H: columns tile [0, wp] from x = 0; within each column the rectangles share (x, w)
/// and stack from y = 0 without gaps, ending by hp.
#[must_use]
pub fn verify_two_stage_vh(rects: &[PlacedRect], wp: i32, hp: i32) -> (b: bool)
    ensures
        b == two_stage_ok(rects@, false, wp as int, hp as int),
{
    verify_two_stage_axis(rects, false, wp, hp)
}

/// H–V: rows tile [0, hp] from y = 0; within each row the rectangles share (y, h) and
/// pack from x = 0 without gaps, ending by wp.
#[must_use]
pub fn verify_two_stage_hv(rects: &[PlacedRect], wp: i32, hp: i32) -> (b: bool)
    ensures
        b == two_stage_ok(rects@, true, wp as int, hp as int),
{
    verify_two_stage_axis(rects, true, wp, hp)
}

/// Either two-stage form.
#[must_use]
pub fn verify_two_stage(rects: &[PlacedRect], wp: i32, hp: i32) -> (b: bool)
    ensures
        b == (two_stage_ok(rects@, false, wp as int, hp as int) || two_stage_ok(
            rects@,
            true,
            wp as int,
            hp as int,
        )),
{
    verify_two_stage_vh(rects, wp, hp) || verify_two_stage_hv(rects, wp, hp)
}

/// How a packing was built: V–H columns or H–V rows.
#[derive(Debug, Clone, Copy, PartialEq, Eq, Structural)]
pub enum PackMode {
    Vh,
    Hv,
}

impl PackMode {
    pub fn as_str(self) -> (s: &'static str)
        ensures
            s@ == (match self {
                PackMode::Vh => "VH"@,
                PackMode::Hv => "HV"@,
            }),
    {
        match self {
            PackMode::Vh => "VH",
            PackMode::Hv => "HV",
        }
    }
}

/// The order in which instances are offered to a packer.
#[derive(Debug, Clone, Copy, PartialEq, Eq, Structural)]
pub enum OrderSeed {
    Default,
    AreaDesc,
    AreaAsc,
    WidthDesc,
    HeightDesc,
    ProductId,
}

/// A packing: its rectangles, how it was built, and its utilization as the ratio
/// `placed_area / sheet_area`.
#[derive(Debug, Clone)]
pub struct PackResult {
    pub rects: Vec<PlacedRect>,
    pub mode: PackMode,
    pub placed_area: i128,
    pub sheet_area: i64,
}

pub struct PackResultView {
    pub rects: Seq<PlacedRect>,
    pub mode: PackMode,
    pub placed_area: int,
    pub sheet_area: int,
}

impl View for PackResult {
    type V = PackResultView;

    open spec fn view(&self) -> PackResultView {
        PackResultView {
            rects: self.rects@,
            mode: self.mode,
            placed_area: self.placed_area as int,
            sheet_area: self.sheet_area as int,
        }
    }
}

pub open spec fn results_view(v: Seq<PackResult>) -> Seq<PackResultView> {
    v.map_values(|r: PackResult| r@)
}

/// Sum of the rectangles' areas.
pub open spec fn area_sum(s: Seq<PlacedRect>) -> int
    decreases s.len(),
{
    if s.len() == 0 {
        0
    } else {
        area_sum(s.drop_last()) + s.last().w * s.last().h
    }
}

/// Every running total of the areas fits in `i64`.
pub open spec fn area_prefixes_fit(s: Seq<PlacedRect>) -> bool {
    forall|i: int| 0 <= i <= s.len() ==> i64::MIN <= #[trigger] area_sum(s.take(i)) <= i64::MAX
}

/// Total area of the rectangles.
#[must_use]
pub fn total_placed_area(rects: &[PlacedRect]) -> (a: i64)
    requires
        area_prefixes_fit(rects@),
    ensures
        a == area_sum(rects@),
{
    let mut acc: i64 = 0;
    let mut i: usize = 0;
    while i < rects.len()
        invariant
            0 <= i <= rects@.len(),
            area_prefixes_fit(rects@),
            acc == area_sum(rects@.take(i as int)),
        decreases rects@.len() - i,
    {
        assert(rects@.take(i + 1).drop_last() =~= rects@.take(i as int));
        assert(area_sum(rects@.take(i + 1)) <= i64::MAX);
        proof {
            lemma_product_bound(rects@[i as int].w, rects@[i as int].h);
        }
        let a = rects[i].w as i64 * rects[i].h as i64;
        acc = acc + a;
        i += 1;
    }
    assert(rects@.take(rects@.len() as int) =~= rects@);
    acc
}

proof fn lemma_product_bound(a: i32, b: i32)
    ensures
        -0x4000_0000_0000_0000 <= a * b <= 0x4000_0000_0000_0000,
{
    assert(-0x8000_0000 <= a <= 0x8000_0000);
    assert(-0x4000_0000_0000_0000 <= a * b <= 0x4000_0000_0000_0000) by (nonlinear_arith)
        requires
            -0x8000_0000 <= a <= 0x8000_0000,
            -0x8000_0000 <= b <= 0x8000_0000,
    ;
}

/// Total area of the rectangles, in a type wide enough for any slice.
fn area_sum_wide(rects: &[PlacedRect]) -> (a: i128)
    ensures
        a == area_sum(rects@),
{
    let mut acc: i128 = 0;
    let mut i: usize = 0;
    let n = rects.len();
    while i < n
        invariant
            0 <= i <= rects@.len(),
            n == rects@.len(),
            -(i as int) * 0x4000_0000_0000_0000 <= acc <= (i as int) * 0x4000_0000_0000_0000,
            acc == area_sum(rects@.take(i as int)),
        decreases rects@.len() - i,
    {
        assert(rects@.take(i + 1).drop_last() =~= rects@.take(i as int));
        proof {
            lemma_product_bound(rects@[i as int].w, rects@[i as int].h);
        }
        let a = rects[i].w as i128 * rects[i].h as i128;
        acc = acc + a;
        i += 1;
    }
    assert(rects@.take(rects@.len() as int) =~= rects@);
    acc
}

/// One SKU line: id, dimensions, how many copies go on the sheet, rotation setting.
#[derive(Debug, Clone)]
pub struct SkuRow {
    pub id: String,
    pub w: i32,
    pub h: i32,
    pub count: i32,
    pub allow_rotation: Option<bool>,
}

/// The instance a SKU row stands for.
pub open spec fn row_instance(p: SkuRow) -> PackInstance {
    PackInstance { product_id: p.id, w: p.w, h: p.h, allow_rotation: p.allow_rotation }
}

/// Each row repeated `count` times (none when `count <= 0`), rows in order.
pub open spec fn expanded(rows: Seq<SkuRow>) -> Seq<PackInstance>
    decreases rows.len(),
{
    if rows.len() == 0 {
        seq![]
    } else {
        let last = rows.last();
        expanded(rows.drop_last()) + Seq::new(
            if last.count < 0 { 0nat } else { last.count as nat },
            |i: int| row_instance(last),
        )
    }
}

fn copy_instance(i: &PackInstance) -> (r: PackInstance)
    ensures
        r == *i,
{
    PackInstance {
        product_id: i.product_id.clone(),
        w: i.w,
        h: i.h,
        allow_rotation: i.allow_rotation,
    }
}

/// Expand SKU rows into individual instances for packing.
#[must_use]
pub fn expand_instances(products: &[SkuRow]) -> (out: Vec<PackInstance>)
    ensures
        out@ == expanded(products@),
{
    let mut out: Vec<PackInstance> = Vec::new();
    let mut i: usize = 0;
    while i < products.len()
        invariant
            0 <= i <= products@.len(),
            out@ == expanded(products@.take(i as int)),
        decreases products@.len() - i,
    {
        let p = &products[i];
        let ghost base = out@;
        let ghost inst = row_instance(*p);
        let mut c: i32 = 0;
        while c < p.count
            invariant
                0 <= c,
                c <= p.count || c == 0,
                inst == row_instance(*p),
                out@ == base + Seq::new(c as nat, |j: int| inst),
            decreases p.count - c,
        {
            out.push(PackInstance {
                product_id: p.id.clone(),
                w: p.w,
                h: p.h,
                allow_rotation: p.allow_rotation,
            });
            assert(out@ =~= base + Seq::new((c + 1) as nat, |j: int| inst));
            c += 1;
        }
        assert(products@.take(i + 1).drop_last() =~= products@.take(i as int));
        assert(Seq::new(c as nat, |j: int| inst) =~= Seq::new(
            if p.count < 0 { 0nat } else { p.count as nat },
            |j: int| row_instance(products@.take(i + 1).last()),
        ));
        i += 1;
    }
    assert(products@.take(products@.len() as int) =~= products@);
    out
}

/// Sum of the instances' areas.
pub open spec fn instance_area_sum(s: Seq<PackInstance>) -> int
    decreases s.len(),
{
    if s.len() == 0 {
        0
    } else {
        instance_area_sum(s.drop_last()) + s.last().w * s.last().h
    }
}

/// Necessary condition for a packing: the instances' areas add up to at most the sheet's.
#[must_use]
pub fn trivial_area_feasible(instances: &[PackInstance], wp: i32, hp: i32) -> (b: bool)
    ensures
        b == (instance_area_sum(instances@) <= wp * hp),
{
    let mut acc: i128 = 0;
    let mut i: usize = 0;
    let n = instances.len();
    while i < n
        invariant
            0 <= i <= n,
            n == instances@.len(),
            -(i as int) * 0x4000_0000_0000_0000 <= acc <= (i as int) * 0x4000_0000_0000_0000,
            acc == instance_area_sum(instances@.take(i as int)),
        decreases n - i,
    {
        assert(instances@.take(i + 1).drop_last() =~= instances@.take(i as int));
        proof {
            lemma_product_bound(instances@[i as int].w, instances@[i as int].h);
        }
        let a = instances[i].w as i128 * instances[i].h as i128;
        acc = acc + a;
        i += 1;
    }
    assert(instances@.take(n as int) =~= instances@);
    proof {
        lemma_product_bound(wp, hp);
    }
    acc <= wp as i128 * hp as i128
}

pub open spec fn inst_area(i: PackInstance) -> int {
    i.w * i.h
}

/// Strict precedence of instances for an ordering seed; ties on the primary key fall
/// back to the product id.  `Default` keeps the given order.
pub open spec fn seed_before(seed: OrderSeed) -> spec_fn(PackInstance, PackInstance) -> bool {
    |a: PackInstance, b: PackInstance|
        match seed {
            OrderSeed::AreaDesc => inst_area(a) > inst_area(b) || (inst_area(a) == inst_area(b)
                && seq_lt(a.product_id@, b.product_id@)),
            OrderSeed::AreaAsc => inst_area(a) < inst_area(b) || (inst_area(a) == inst_area(b)
                && seq_lt(a.product_id@, b.product_id@)),
            OrderSeed::WidthDesc => a.w > b.w || (a.w == b.w && seq_lt(
                a.product_id@,
                b.product_id@,
            )),
            OrderSeed::HeightDesc => a.h > b.h || (a.h == b.h && seq_lt(
                a.product_id@,
                b.product_id@,
            )),
            OrderSeed::ProductId => seq_lt(a.product_id@, b.product_id@),
            OrderSeed::Default => false,
        }
}

/// The instances, stably sorted for the seed.
pub open spec fn sorted_instances(instances: Seq<PackInstance>, seed: OrderSeed) -> Seq<
    PackInstance,
> {
    sort_by(instances, seed_before(seed))
}

fn seed_before_exec(a: &PackInstance, b: &PackInstance, seed: OrderSeed) -> (r: bool)
    ensures
        r == (seed_before(seed))(*a, *b),
{
    match seed {
        OrderSeed::AreaDesc => {
            let aa = area_wide(a);
            let bb = area_wide(b);
            if aa != bb {
                aa > bb
            } else {
                str_lt(a.product_id.as_str(), b.product_id.as_str())
            }
        },
        OrderSeed::AreaAsc => {
            let aa = area_wide(a);
            let bb = area_wide(b);
            if aa != bb {
                aa < bb
            } else {
                str_lt(a.product_id.as_str(), b.product_id.as_str())
            }
        },
        OrderSeed::WidthDesc => {
            if a.w != b.w {
                a.w > b.w
            } else {
                str_lt(a.product_id.as_str(), b.product_id.as_str())
            }
        },
        OrderSeed::HeightDesc => {
            if a.h != b.h {
                a.h > b.h
            } else {
                str_lt(a.product_id.as_str(), b.product_id.as_str())
            }
        },
        OrderSeed::ProductId => str_lt(a.product_id.as_str(), b.product_id.as_str()),
        OrderSeed::Default => false,
    }
}

/// The area of an instance, computed without overflow.
fn area_wide(a: &PackInstance) -> (r: i64)
    ensures
        r == inst_area(*a),
{
    proof {
        lemma_product_bound(a.w, a.h);
    }
    a.w as i64 * a.h as i64
}

/// A copy of the instances in seed order (a stable sort; `Default` keeps the order).
pub fn sort_instances(instances: &[PackInstance], seed: OrderSeed) -> (out: Vec<PackInstance>)
    ensures
        out@ == sorted_instances(instances@, seed),
        forall|k: int|
            0 <= k < out@.len() ==> exists|m: int|
                0 <= m < instances@.len() && #[trigger] out@[k] == instances@[m],
{
    let mut out: Vec<PackInstance> = Vec::new();
    let mut i: usize = 0;
    while i < instances.len()
        invariant
            0 <= i <= instances@.len(),
            out@ == sort_by(instances@.take(i as int), seed_before(seed)),
            forall|k: int|
                0 <= k < out@.len() ==> exists|m: int|
                    0 <= m < instances@.len() && #[trigger] out@[k] == instances@[m],
        decreases instances@.len() - i,
    {
        assert(instances@.take(i + 1).drop_last() =~= instances@.take(i as int));
        let p = copy_instance(&instances[i]);
        let mut j: usize = out.len();
        while j > 0 && seed_before_exec(&p, &out[j - 1], seed)
            invariant
                0 <= j <= out@.len(),
                0 <= i < instances@.len(),
                p == instances@[i as int],
                forall|k: int|
                    0 <= k < out@.len() ==> exists|m: int|
                        0 <= m < instances@.len() && #[trigger] out@[k] == instances@[m],
                forall|k: int| j <= k < out@.len() ==> #[trigger] (seed_before(seed))(p, out@[k]),
            decreases j,
        {
            j -= 1;
        }
        proof {
            lemma_insert_at(out@, p, seed_before(seed), j as int);
            lemma_sort_prefix_step(instances@, seed_before(seed), i as int);
        }
        let ghost prev = out@;
        out.insert(j, p);
        proof {
            assert forall|k: int| 0 <= k < out@.len() implies exists|m: int|
                0 <= m < instances@.len() && #[trigger] out@[k] == instances@[m] by {
                if k < j {
                    assert(out@[k] == prev[k]);
                } else if k == j {
                    assert(out@[k] == instances@[i as int]);
                } else {
                    assert(out@[k] == prev[k - 1]);
                }
            }
        }
        i += 1;
    }
    assert(instances@.take(instances@.len() as int) =~= instances@);
    out
}

/// How Rust's `Display` writes a `bool`.
pub open spec fn bool_chars(b: bool) -> Seq<char> {
    if b {
        seq!['t', 'r', 'u', 'e']
    } else {
        seq!['f', 'a', 'l', 's', 'e']
    }
}

/// `"x,y,w,h,product_id,rotated"` for one rectangle.
pub open spec fn rect_part(r: PlacedRect) -> Seq<char> {
    decimal(r.x as int) + seq![','] + decimal(r.y as int) + seq![','] + decimal(r.w as int) + seq![
        ',',
    ] + decimal(r.h as int) + seq![','] + r.product_id@ + seq![','] + bool_chars(r.rotated)
}

pub open spec fn text_before() -> spec_fn(Seq<char>, Seq<char>) -> bool {
    |a: Seq<char>, b: Seq<char>| seq_lt(a, b)
}

/// The parts joined with `'|'`.
pub open spec fn join_bar(parts: Seq<Seq<char>>) -> Seq<char>
    decreases parts.len(),
{
    if parts.len() == 0 {
        seq![]
    } else if parts.len() == 1 {
        parts[0]
    } else {
        join_bar(parts.drop_last()) + seq!['|'] + parts.last()
    }
}

/// The identity of a packing up to the order of its rectangles: the rectangles'
/// parts, sorted, joined with `'|'`.
pub open spec fn signature(rects: Seq<PlacedRect>) -> Seq<char> {
    join_bar(sort_by(rects.map_values(|r: PlacedRect| rect_part(r)), text_before()))
}

pub open spec fn char_views(v: Seq<Vec<char>>) -> Seq<Seq<char>> {
    v.map_values(|x: Vec<char>| x@)
}

proof fn lemma_char_views_insert(v: Seq<Vec<char>>, j: int, x: Vec<char>)
    requires
        0 <= j <= v.len(),
    ensures
        char_views(v.insert(j, x)) == char_views(v).insert(j, x@),
{
    v.insert_ensures(j, x);
    char_views(v).insert_ensures(j, x@);
    assert(char_views(v.insert(j, x)) =~= char_views(v).insert(j, x@));
}

fn push_bool_chars(out: &mut Vec<char>, b: bool)
    ensures
        final(out)@ == old(out)@ + bool_chars(b),
{
    if b {
        out.push('t');
        out.push('r');
        out.push('u');
        out.push('e');
    } else {
        out.push('f');
        out.push('a');
        out.push('l');
        out.push('s');
        out.push('e');
    }
    assert(final(out)@ =~= old(out)@ + bool_chars(b));
}

fn rect_part_exec(r: &PlacedRect) -> (v: Vec<char>)
    ensures
        v@ == rect_part(*r),
{
    let mut v: Vec<char> = Vec::new();
    push_decimal(&mut v, r.x as i64);
    v.push(',');
    push_decimal(&mut v, r.y as i64);
    v.push(',');
    push_decimal(&mut v, r.w as i64);
    v.push(',');
    push_decimal(&mut v, r.h as i64);
    v.push(',');
    push_str_chars(&mut v, r.product_id.as_str());
    v.push(',');
    push_bool_chars(&mut v, r.rotated);
    assert(v@ =~= rect_part(*r));
    v
}

fn signature_exec(rects: &[PlacedRect]) -> (sig: Vec<char>)
    ensures
        sig@ == signature(rects@),
{
    let ghost parts = rects@.map_values(|r: PlacedRect| rect_part(r));
    let mut sorted: Vec<Vec<char>> = Vec::new();
    let mut i: usize = 0;
    while i < rects.len()
        invariant
            0 <= i <= rects@.len(),
            parts == rects@.map_values(|r: PlacedRect| rect_part(r)),
            char_views(sorted@) == sort_by(parts.take(i as int), text_before()),
        decreases rects@.len() - i,
    {
        let p = rect_part_exec(&rects[i]);
        let mut j: usize = sorted.len();
        while j > 0 && chars_lt(&p, &sorted[j - 1])
            invariant
                0 <= j <= sorted@.len(),
                forall|k: int|
                    j <= k < sorted@.len() ==> #[trigger] (text_before())(p@, char_views(sorted@)[k]),
            decreases j,
        {
            j -= 1;
        }
        proof {
            lemma_insert_at(char_views(sorted@), p@, text_before(), j as int);
            lemma_sort_prefix_step(parts, text_before(), i as int);
            lemma_char_views_insert(sorted@, j as int, p);
        }
        sorted.insert(j, p);
        i += 1;
    }
    assert(parts.take(parts.len() as int) =~= parts);
    let ghost views = char_views(sorted@);
    let mut out: Vec<char> = Vec::new();
    let mut k: usize = 0;
    while k < sorted.len()
        invariant
            0 <= k <= sorted@.len(),
            views == char_views(sorted@),
            out@ == join_bar(views.take(k as int)),
        decreases sorted@.len() - k,
    {
        let ghost before = out@;
        if k > 0 {
            out.push('|');
        }
        let part = &sorted[k];
        let mut c: usize = 0;
        while c < part.len()
            invariant
                0 <= c <= part@.len(),
                out@ == (if k > 0 { before + seq!['|'] } else { before }) + part@.take(c as int),
            decreases part@.len() - c,
        {
            out.push(part[c]);
            assert(part@.take(c + 1) =~= part@.take(c as int).push(part@[c as int]));
            c += 1;
        }
        assert(part@.take(part@.len() as int) =~= part@);
        assert(views.take(k + 1).drop_last() =~= views.take(k as int));
        if k == 0 {
            assert(views.take(1) =~= seq![views[0]]);
            assert(out@ =~= join_bar(views.take(1)));
        } else {
            assert(out@ =~= join_bar(views.take(k + 1)));
        }
        k += 1;
    }
    assert(views.take(views.len() as int) =~= views);
    out
}

fn chars_eq(a: &Vec<char>, b: &Vec<char>) -> (r: bool)
    ensures
        r == (a@ == b@),
{
    if a.len() != b.len() {
        return false;
    }
    let mut i: usize = 0;
    while i < a.len()
        invariant
            a@.len() == b@.len(),
            0 <= i <= a@.len(),
            forall|k: int| 0 <= k < i ==> a@[k] == b@[k],
        decreases a@.len() - i,
    {
        if a[i] != b[i] {
            return false;
        }
        i += 1;
    }
    assert(a@ =~= b@);
    true
}

fn contains_chars(seen: &Vec<Vec<char>>, x: &Vec<char>) -> (r: bool)
    ensures
        r == char_views(seen@).contains(x@),
{
    let mut i: usize = 0;
    while i < seen.len()
        invariant
            0 <= i <= seen@.len(),
            forall|k: int| 0 <= k < i ==> char_views(seen@)[k] != x@,
        decreases seen@.len() - i,
    {
        if chars_eq(&seen[i], x) {
            assert(char_views(seen@)[i as int] == x@);
            return true;
        }
        i += 1;
    }
    false
}

/// Search settings: stop after this many distinct results, the orderings to try
/// (empty: the default list), and the rotation default for instances without their own.
pub struct PackOptions<'a> {
    pub max_solutions: usize,
    pub seeds: &'a [OrderSeed],
    pub allow_rotation: bool,
}

/// The orderings tried when none are given.
pub open spec fn default_seeds() -> Seq<OrderSeed> {
    seq![
        OrderSeed::Default,
        OrderSeed::AreaDesc,
        OrderSeed::AreaAsc,
        OrderSeed::WidthDesc,
        OrderSeed::HeightDesc,
        OrderSeed::ProductId,
    ]
}

pub fn default_seed_list() -> (s: &'static [OrderSeed])
    ensures
        s@ == default_seeds(),
{
    let s: &'static [OrderSeed] = &[
        OrderSeed::Default,
        OrderSeed::AreaDesc,
        OrderSeed::AreaAsc,
        OrderSeed::WidthDesc,
        OrderSeed::HeightDesc,
        OrderSeed::ProductId,
    ];
    assert(s@ =~= default_seeds());
    s
}

impl Default for PackOptions<'_> {
    fn default() -> (o: Self)
        ensures
            o.max_solutions == 8,
            o.seeds@ == default_seeds(),
            o.allow_rotation,
    {
        PackOptions { max_solutions: 8, seeds: default_seed_list(), allow_rotation: true }
    }
}

/// `a` has strictly higher utilization than `b` (results of one sheet; a sheet of zero
/// area ranks everything equal).
pub open spec fn util_before() -> spec_fn(PackResultView, PackResultView) -> bool {
    |a: PackResultView, b: PackResultView|
        a.sheet_area == b.sheet_area && (if a.sheet_area > 0 {
            a.placed_area > b.placed_area
        } else if a.sheet_area < 0 {
            a.placed_area < b.placed_area
        } else {
            false
        })
}

pub open spec fn opt_view(o: Option<Vec<PlacedRect>>) -> Option<Seq<PlacedRect>> {
    match o {
        Some(v) => Some(v@),
        None => None,
    }
}

/// Records a packing unless it leaves the sheet, overlaps, or repeats an earlier one.
pub open spec fn try_add(
    acc: (Seq<PackResultView>, Seq<Seq<char>>),
    o: Option<Seq<PlacedRect>>,
    mode: PackMode,
    wp: int,
    hp: int,
) -> (Seq<PackResultView>, Seq<Seq<char>>) {
    match o {
        Some(rects) => if all_inside(rects, wp, hp) && no_overlap(rects) && !acc.1.contains(
            signature(rects),
        ) {
            (
                acc.0.push(
                    PackResultView {
                        rects: rects,
                        mode: mode,
                        placed_area: area_sum(rects),
                        sheet_area: wp * hp,
                    },
                ),
                acc.1.push(signature(rects)),
            )
        } else {
            acc
        },
        None => acc,
    }
}

/// Up to this many instances the search is depth-first; above it, greedy.
pub open spec fn dfs_limit() -> int {
    12
}

/// One ordering: the V–H packing, then the H–V packing.
pub open spec fn seed_step(
    acc: (Seq<PackResultView>, Seq<Seq<char>>),
    instances: Seq<PackInstance>,
    seed: OrderSeed,
    wp: int,
    hp: int,
    dflt: bool,
) -> (Seq<PackResultView>, Seq<Seq<char>>) {
    let ordered = sorted_instances(instances, seed);
    let use_dfs = instances.len() <= dfs_limit();
    let a1 = try_add(acc, search_outcome(ordered, false, use_dfs, dflt, wp, hp), PackMode::Vh, wp, hp);
    try_add(a1, search_outcome(ordered, true, use_dfs, dflt, hp, wp), PackMode::Hv, wp, hp)
}

/// The orderings from `i` on, stopping once `max_sol` results are recorded.
pub open spec fn run_seeds(
    seeds: Seq<OrderSeed>,
    i: int,
    acc: (Seq<PackResultView>, Seq<Seq<char>>),
    instances: Seq<PackInstance>,
    wp: int,
    hp: int,
    dflt: bool,
    max_sol: int,
) -> (Seq<PackResultView>, Seq<Seq<char>>)
    decreases seeds.len() - i,
{
    if i < 0 || i >= seeds.len() {
        acc
    } else {
        let a = seed_step(acc, instances, seeds[i], wp, hp, dflt);
        if a.0.len() >= max_sol {
            a
        } else {
            run_seeds(seeds, i + 1, a, instances, wp, hp, dflt, max_sol)
        }
    }
}

pub open spec fn effective_seeds(seeds: Seq<OrderSeed>) -> Seq<OrderSeed> {
    if seeds.len() == 0 {
        default_seeds()
    } else {
        seeds
    }
}

/// The distinct valid packings found, best utilization first (stable among equals).
pub open spec fn packed_results(
    wp: int,
    hp: int,
    instances: Seq<PackInstance>,
    seeds: Seq<OrderSeed>,
    max_sol: int,
    dflt: bool,
) -> Seq<PackResultView> {
    sort_by(
        run_seeds(
            effective_seeds(seeds),
            0,
            (seq![], seq![]),
            instances,
            wp,
            hp,
            dflt,
            max_sol,
        ).0,
        util_before(),
    )
}

fn try_add_exec(
    results: &mut Vec<PackResult>,
    seen: &mut Vec<Vec<char>>,
    o: Option<Vec<PlacedRect>>,
    mode: PackMode,
    wp: i32,
    hp: i32,
)
    ensures
        (results_view(final(results)@), char_views(final(seen)@)) == try_add(
            (results_view(old(results)@), char_views(old(seen)@)),
            opt_view(o),
            mode,
            wp as int,
            hp as int,
        ),
{
    match o {
        Some(rects) => {
            if all_inside_sheet(rects.as_slice(), wp, hp) && no_overlaps(rects.as_slice()) {
                let sig = signature_exec(rects.as_slice());
                if !contains_chars(seen, &sig) {
                    proof {
                        lemma_product_bound(wp, hp);
                    }
                    let area = area_sum_wide(rects.as_slice());
                    let ghost r0 = results@;
                    let ghost s0 = seen@;
                    let ghost rv = rects@;
                    results.push(
                        PackResult {
                            rects: rects,
                            mode: mode,
                            placed_area: area,
                            sheet_area: wp as i64 * hp as i64,
                        },
                    );
                    seen.push(sig);
                    assert(results_view(results@) =~= results_view(r0).push(
                        PackResultView {
                            rects: rv,
                            mode: mode,
                            placed_area: area_sum(rv),
                            sheet_area: wp * hp,
                        },
                    ));
                    assert(char_views(seen@) =~= char_views(s0).push(signature(rv)));
                }
            }
        },
        None => {},
    }
}

fn util_before_exec(a: &PackResult, b: &PackResult) -> (r: bool)
    ensures
        r == (util_before())(a@, b@),
{
    a.sheet_area == b.sheet_area && (if a.sheet_area > 0 {
        a.placed_area > b.placed_area
    } else if a.sheet_area < 0 {
        a.placed_area < b.placed_area
    } else {
        false
    })
}

proof fn lemma_results_view_insert(v: Seq<PackResult>, j: int, x: PackResult)
    requires
        0 <= j <= v.len(),
    ensures
        results_view(v.insert(j, x)) == results_view(v).insert(j, x@),
{
    v.insert_ensures(j, x);
    results_view(v).insert_ensures(j, x@);
    assert(results_view(v.insert(j, x)) =~= results_view(v).insert(j, x@));
}

/// Stable sort of the results, best utilization first.
fn rank_pack_results(results: Vec<PackResult>) -> (out: Vec<PackResult>)
    ensures
        results_view(out@) == sort_by(results_view(results@), util_before()),
{
    let ghost rv = results_view(results@);
    let mut rest = results;
    let mut out: Vec<PackResult> = Vec::new();
    let n = rest.len();
    let mut i: usize = 0;
    while i < n
        invariant
            0 <= i <= n,
            n == rv.len(),
            rest@.len() == n - i,
            forall|k: int| 0 <= k < n - i ==> #[trigger] rest@[k]@ == rv[i + k],
            results_view(out@) == sort_by(rv.take(i as int), util_before()),
        decreases n - i,
    {
        let ghost r0 = rest@;
        let p = rest.remove(0);
        assert(p@ == rv[i as int]);
        assert forall|k: int| 0 <= k < n - (i + 1) implies #[trigger] rest@[k]@ == rv[i + 1 + k] by {
            assert(rest@[k] == r0[k + 1]);
        }
        let mut j: usize = out.len();
        while j > 0 && util_before_exec(&p, &out[j - 1])
            invariant
                0 <= j <= out@.len(),
                forall|k: int|
                    j <= k < out@.len() ==> #[trigger] (util_before())(p@, results_view(out@)[k]),
            decreases j,
        {
            j -= 1;
        }
        proof {
            lemma_insert_at(results_view(out@), p@, util_before(), j as int);
            lemma_sort_prefix_step(rv, util_before(), i as int);
            lemma_results_view_insert(out@, j as int, p);
        }
        out.insert(j, p);
        i += 1;
    }
    assert(rv.take(n as int) =~= rv);
    out
}

/// Try two-stage V–H and H–V packing with optional 90° rotation over several
/// item orderings; keep the distinct packings that stay on the sheet without overlaps,
/// best utilization first.
#[must_use]
pub fn pack_multi_stage(wp: i32, hp: i32, instances: &[PackInstance], options: &PackOptions<'_>) -> (out:
    Vec<PackResult>)
    ensures
        results_view(out@) == packed_results(
            wp as int,
            hp as int,
            instances@,
            options.seeds@,
            options.max_solutions as int,
            options.allow_rotation,
        ),
{
    let max_sol = options.max_solutions;
    let seeds: &[OrderSeed] = if options.seeds.len() == 0 {
        default_seed_list()
    } else {
        options.seeds
    };
    let dflt = options.allow_rotation;
    let use_dfs = instances.len() <= 12;
    let ghost eff = effective_seeds(options.seeds@);
    let ghost empty: (Seq<PackResultView>, Seq<Seq<char>>) = (seq![], seq![]);
    let mut results: Vec<PackResult> = Vec::new();
    let mut seen: Vec<Vec<char>> = Vec::new();
    assert(results_view(results@) =~= empty.0);
    assert(char_views(seen@) =~= empty.1);
    let mut i: usize = 0;
    while i < seeds.len()
        invariant
            0 <= i <= seeds@.len(),
            seeds@ == eff,
            eff == effective_seeds(options.seeds@),
            empty == (Seq::<PackResultView>::empty(), Seq::<Seq<char>>::empty()),
            use_dfs == (instances@.len() <= dfs_limit()),
            dflt == options.allow_rotation,
            max_sol == options.max_solutions,
            run_seeds(eff, 0, empty, instances@, wp as int, hp as int, dflt, max_sol as int)
                == run_seeds(
                eff,
                i as int,
                (results_view(results@), char_views(seen@)),
                instances@,
                wp as int,
                hp as int,
                dflt,
                max_sol as int,
            ),
        decreases seeds@.len() - i,
    {
        let seed = seeds[i];
        let ghost acc0 = (results_view(results@), char_views(seen@));
        let ordered = sort_instances(instances, seed);
        let vh = search_exec(ordered.as_slice(), false, use_dfs, dflt, wp, hp);
        try_add_exec(&mut results, &mut seen, vh, PackMode::Vh, wp, hp);
        let hv = search_exec(ordered.as_slice(), true, use_dfs, dflt, hp, wp);
        try_add_exec(&mut results, &mut seen, hv, PackMode::Hv, wp, hp);
        assert((results_view(results@), char_views(seen@)) == seed_step(
            acc0,
            instances@,
            seed,
            wp as int,
            hp as int,
            dflt,
        ));
        if results.len() >= max_sol {
            assert(results_view(results@).len() >= max_sol);
            assert(run_seeds(eff, i as int, acc0, instances@, wp as int, hp as int, dflt, max_sol as int)
                == (results_view(results@), char_views(seen@)));
            return rank_pack_results(results);
        }
        i += 1;
    }
    rank_pack_results(results)
}

/// A recorded packing: it stays on the sheet without overlaps and records its own area
/// and the sheet's.
pub open spec fn valid_packing(r: PackResultView, wp: int, hp: int) -> bool {
    &&& all_inside(r.rects, wp, hp)
    &&& no_overlap(r.rects)
    &&& r.placed_area == area_sum(r.rects)
    &&& r.sheet_area == wp * hp
}

/// The signature of a packing's rectangles.
pub open spec fn packing_signature() -> spec_fn(PackResultView) -> Seq<char> {
    |r: PackResultView| signature(r.rects)
}

spec fn acc_ok(acc: (Seq<PackResultView>, Seq<Seq<char>>), wp: int, hp: int) -> bool {
    &&& acc.1.len() == acc.0.len()
    &&& forall|i: int|
        0 <= i < acc.0.len() ==> valid_packing(#[trigger] acc.0[i], wp, hp) && acc.1[i]
            == signature(acc.0[i].rects)
    &&& keys_distinct(acc.0, packing_signature())
}

proof fn lemma_try_add_ok(
    acc: (Seq<PackResultView>, Seq<Seq<char>>),
    o: Option<Seq<PlacedRect>>,
    mode: PackMode,
    wp: int,
    hp: int,
)
    requires
        acc_ok(acc, wp, hp),
    ensures
        acc_ok(try_add(acc, o, mode, wp, hp), wp, hp),
{
    let r = try_add(acc, o, mode, wp, hp);
    if r != acc {
        let rects = o->0;
        assert(!acc.1.contains(signature(rects)));
        assert forall|i: int| 0 <= i < r.0.len() implies valid_packing(#[trigger] r.0[i], wp, hp)
            && r.1[i] == signature(r.0[i].rects) by {
            if i < acc.0.len() {
                assert(r.0[i] == acc.0[i]);
            }
        }
        assert forall|i: int, j: int| 0 <= i < j < r.0.len() implies (packing_signature())(
            #[trigger] r.0[i],
        ) != (packing_signature())(#[trigger] r.0[j]) by {
            assert(r.0[i] == acc.0[i]);
            if j < acc.0.len() {
                assert(r.0[j] == acc.0[j]);
            } else {
                assert(acc.1[i] == signature(acc.0[i].rects));
            }
        }
    }
}

proof fn lemma_run_seeds_ok(
    seeds: Seq<OrderSeed>,
    i: int,
    acc: (Seq<PackResultView>, Seq<Seq<char>>),
    instances: Seq<PackInstance>,
    wp: int,
    hp: int,
    dflt: bool,
    max_sol: int,
)
    requires
        acc_ok(acc, wp, hp),
    ensures
        acc_ok(run_seeds(seeds, i, acc, instances, wp, hp, dflt, max_sol), wp, hp),
    decreases seeds.len() - i,
{
    if 0 <= i < seeds.len() {
        let ordered = sorted_instances(instances, seeds[i]);
        let use_dfs = instances.len() <= dfs_limit();
        let a1 = try_add(acc, search_outcome(ordered, false, use_dfs, dflt, wp, hp), PackMode::Vh, wp, hp);
        lemma_try_add_ok(acc, search_outcome(ordered, false, use_dfs, dflt, wp, hp), PackMode::Vh, wp, hp);
        lemma_try_add_ok(a1, search_outcome(ordered, true, use_dfs, dflt, hp, wp), PackMode::Hv, wp, hp);
        let a = seed_step(acc, instances, seeds[i], wp, hp, dflt);
        if a.0.len() < max_sol {
            lemma_run_seeds_ok(seeds, i + 1, a, instances, wp, hp, dflt, max_sol);
        }
    }
}

/// Among packings of one sheet, utilization order is a strict weak order.
proof fn lemma_util_strict_weak(area: int)
    ensures
        strict_weak_on(util_before(), |r: PackResultView| r.sheet_area == area),
{
}

/// Every packing returned stays on the sheet without overlaps and records its own area
/// and the sheet's; no two packings returned have the same signature; and none has a
/// strictly higher utilization than one in front of it.
pub proof fn packings_are_valid(
    wp: int,
    hp: int,
    instances: Seq<PackInstance>,
    seeds: Seq<OrderSeed>,
    max_sol: int,
    dflt: bool,
)
    ensures
        forall|i: int|
            0 <= i < packed_results(wp, hp, instances, seeds, max_sol, dflt).len() ==> valid_packing(
                #[trigger] packed_results(wp, hp, instances, seeds, max_sol, dflt)[i],
                wp,
                hp,
            ),
        keys_distinct(packed_results(wp, hp, instances, seeds, max_sol, dflt), packing_signature()),
        ordered_by(packed_results(wp, hp, instances, seeds, max_sol, dflt), util_before()),
{
    let empty: (Seq<PackResultView>, Seq<Seq<char>>) = (seq![], seq![]);
    let acc = run_seeds(effective_seeds(seeds), 0, empty, instances, wp, hp, dflt, max_sol);
    lemma_run_seeds_ok(effective_seeds(seeds), 0, empty, instances, wp, hp, dflt, max_sol);
    let res = packed_results(wp, hp, instances, seeds, max_sol, dflt);
    assert(res == sort_by(acc.0, util_before()));
    lemma_sort_elements(acc.0, util_before());
    lemma_sort_distinct(acc.0, util_before(), packing_signature());
    assert forall|i: int| 0 <= i < res.len() implies valid_packing(#[trigger] res[i], wp, hp) by {
        let m = choose|m: int| 0 <= m < acc.0.len() && acc.0[m] == res[i];
    }
    let dom = |r: PackResultView| r.sheet_area == wp * hp;
    lemma_util_strict_weak(wp * hp);
    assert forall|i: int| 0 <= i < acc.0.len() implies dom(#[trigger] acc.0[i]) by {
        assert(valid_packing(acc.0[i], wp, hp));
    }
    lemma_sort_ordered(acc.0, util_before(), dom);
}

proof fn lemma_try_add_len(
    acc: (Seq<PackResultView>, Seq<Seq<char>>),
    o: Option<Seq<PlacedRect>>,
    mode: PackMode,
    wp: int,
    hp: int,
)
    ensures
        acc.0.len() <= try_add(acc, o, mode, wp, hp).0.len() <= acc.0.len() + 1,
{
}

proof fn lemma_run_seeds_len(
    seeds: Seq<OrderSeed>,
    i: int,
    acc: (Seq<PackResultView>, Seq<Seq<char>>),
    instances: Seq<PackInstance>,
    wp: int,
    hp: int,
    dflt: bool,
    max_sol: int,
)
    requires
        0 <= i <= seeds.len(),
        acc.0.len() < max_sol || i == 0,
        acc.0.len() <= 2 * i,
    ensures
        run_seeds(seeds, i, acc, instances, wp, hp, dflt, max_sol).0.len() <= 2 * seeds.len(),
        run_seeds(seeds, i, acc, instances, wp, hp, dflt, max_sol).0.len() <= acc.0.len() + 2
            || run_seeds(seeds, i, acc, instances, wp, hp, dflt, max_sol).0.len() <= max_sol + 1,
        acc.0.len() < max_sol ==> run_seeds(seeds, i, acc, instances, wp, hp, dflt, max_sol).0.len()
            <= max_sol + 1,
    decreases seeds.len() - i,
{
    if i < seeds.len() {
        let ordered = sorted_instances(instances, seeds[i]);
        let use_dfs = instances.len() <= dfs_limit();
        let o1 = search_outcome(ordered, false, use_dfs, dflt, wp, hp);
        let a1 = try_add(acc, o1, PackMode::Vh, wp, hp);
        lemma_try_add_len(acc, o1, PackMode::Vh, wp, hp);
        lemma_try_add_len(a1, search_outcome(ordered, true, use_dfs, dflt, hp, wp), PackMode::Hv, wp, hp);
        let a = seed_step(acc, instances, seeds[i], wp, hp, dflt);
        assert(a.0.len() <= acc.0.len() + 2);
        if a.0.len() < max_sol {
            lemma_run_seeds_len(seeds, i + 1, a, instances, wp, hp, dflt, max_sol);
        }
    }
}

/// The search stops once it holds `max_sol` packings: at most `max(max_sol, 1) + 1`
/// packings are returned, and at most two per ordering tried.
pub proof fn packings_stop_early(
    wp: int,
    hp: int,
    instances: Seq<PackInstance>,
    seeds: Seq<OrderSeed>,
    max_sol: int,
    dflt: bool,
)
    ensures
        packed_results(wp, hp, instances, seeds, max_sol, dflt).len() <= (if max_sol < 1 {
            1
        } else {
            max_sol
        }) + 1,
        packed_results(wp, hp, instances, seeds, max_sol, dflt).len() <= 2 * effective_seeds(seeds).len(),
{
    let empty: (Seq<PackResultView>, Seq<Seq<char>>) = (seq![], seq![]);
    let eff = effective_seeds(seeds);
    lemma_run_seeds_len(eff, 0, empty, instances, wp, hp, dflt, max_sol);
    let acc = run_seeds(eff, 0, empty, instances, wp, hp, dflt, max_sol);
    crate::sorting::lemma_sort_len(acc.0, util_before());
}

} // verus!
