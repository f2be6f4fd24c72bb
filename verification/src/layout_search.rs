//! Enumerate count plans and pack each; keep the best layout.

use vstd::prelude::*;
use crate::guillotine::{
    expand_instances, expanded, instance_area_sum, pack_multi_stage, packed_results, results_view,
    row_instance, trivial_area_feasible, util_before, OrderSeed, PackInstance, PackOptions,
    PackResult, PackResultView, SkuRow, inst_area,
    effective_seeds, valid_packing, packings_are_valid,
};
use crate::proportion::{
    all_positive, area_k_cap, compute_proportion_pattern, count_plans, divided,
    enumerate_count_plans, over_fits, over_sum, plans_fit, plans_view, spec_area_k_cap,
    spec_gcd_many, total_overproduction, CountPlanView, ProportionPattern, max_pages, scaled,
    plan_wf, count_plans_wf, pattern_is_primitive, pages_cover_targets, lemma_gcd_upto_bounds,
    count_plans_fit, overproduction_fits, is_multiple, plan_k_exact, count_plans_k_exact,
    ceil_counts, max_target, counts_positive, count_plans_distinct_and_complete,
};
use crate::two_stage::{
    packings_are_two_stage, packings_cover_instance_area, packings_place_instances, places_all,
};
use crate::lane_split::{fits_in_lanes, packing_found_for_a_lane_split, split_area_fits};
use crate::layout_split::layout_gives_a_lane_split;
use crate::sorting::{
    sort_by, lemma_insert_at, lemma_sort_prefix_step, lemma_sort_elements, lemma_sort_len,
    lemma_sort_contains, lemma_sort_ordered, ordered_by, strict_weak_on,
};

verus! {

/// A product to lay out: id, sheet footprint, how many copies are needed, and its own
/// rotation setting (`None` follows the default).
#[derive(Debug, Clone)]
pub struct ProductSpec {
    pub id: String,
    pub w: i32,
    pub h: i32,
    pub target: i32,
    pub allow_rotation: Option<bool>,
}

/// Solver settings: a cap on `k` (500 when absent) and the rotation default.
pub struct SolveOptions {
    pub k_max: Option<i32>,
    pub allow_rotation: bool,
}

impl Default for SolveOptions {
    fn default() -> (o: Self)
        ensures
            o.k_max is None,
            o.allow_rotation,
    {
        SolveOptions { k_max: None, allow_rotation: true }
    }
}

/// A chosen layout: the plan (`k`, per-sheet counts, sheets), the copies printed beyond
/// the targets, the packing of one sheet, and the proportion pattern.  Its utilization is
/// the packing's `placed_area / sheet_area`.
#[derive(Debug, Clone)]
pub struct LayoutSolution {
    pub k: i32,
    pub counts_per_page: Vec<i32>,
    pub pages: i32,
    pub overproduction: i32,
    pub pack: PackResult,
    pub pattern: ProportionPattern,
}

pub struct LayoutSolutionView {
    pub k: i32,
    pub counts: Seq<i32>,
    pub pages: i32,
    pub over: i32,
    pub pack: PackResultView,
    pub d: i32,
    pub p: Seq<i32>,
}

impl View for LayoutSolution {
    type V = LayoutSolutionView;

    open spec fn view(&self) -> LayoutSolutionView {
        LayoutSolutionView {
            k: self.k,
            counts: self.counts_per_page@,
            pages: self.pages,
            over: self.overproduction,
            pack: self.pack@,
            d: self.pattern.d,
            p: self.pattern.p@,
        }
    }
}

pub open spec fn targets_of(products: Seq<ProductSpec>) -> Seq<i32> {
    products.map_values(|p: ProductSpec| p.target)
}

pub open spec fn dims_of(products: Seq<ProductSpec>) -> Seq<(i32, i32)> {
    products.map_values(|p: ProductSpec| (p.w, p.h))
}

/// One SKU row per product, paired with the counts (as far as both go).
pub open spec fn rows_for(products: Seq<ProductSpec>, counts: Seq<i32>) -> Seq<SkuRow> {
    Seq::new(
        if products.len() < counts.len() {
            products.len()
        } else {
            counts.len()
        },
        |i: int|
            SkuRow {
                id: products[i].id,
                w: products[i].w,
                h: products[i].h,
                count: counts[i],
                allow_rotation: products[i].allow_rotation,
            },
    )
}

pub open spec fn instances_for(products: Seq<ProductSpec>, counts: Seq<i32>) -> Seq<PackInstance> {
    expanded(rows_for(products, counts))
}

/// The orderings tried for each plan.
pub open spec fn plan_seeds() -> Seq<OrderSeed> {
    seq![OrderSeed::AreaDesc, OrderSeed::AreaAsc, OrderSeed::Default, OrderSeed::WidthDesc]
}

fn plan_seed_list() -> (s: &'static [OrderSeed])
    ensures
        s@ == plan_seeds(),
{
    let s: &'static [OrderSeed] = &[
        OrderSeed::AreaDesc,
        OrderSeed::AreaAsc,
        OrderSeed::Default,
        OrderSeed::WidthDesc,
    ];
    assert(s@ =~= plan_seeds());
    s
}

/// The cap on `k`: the given one (500 when absent), at most 100 above the area cap, within
/// `1..=2000`.
pub open spec fn solve_k_max(area_cap: int, k_max: Option<i32>) -> int {
    let k_cap: int = match k_max {
        Some(k) => k as int,
        None => 500,
    };
    let m = (if area_cap < 1 {
        1
    } else {
        area_cap
    }) + 100;
    let k = if k_cap < m {
        k_cap
    } else {
        m
    };
    if k < 1 {
        1
    } else if k > 2000 {
        2000
    } else {
        k
    }
}

/// Like `Iterator::max_by`: the index of the last result whose utilization no other
/// exceeds.
pub open spec fn last_max_index(packs: Seq<PackResultView>, n: int) -> int
    decreases n,
{
    if n <= 1 {
        0
    } else {
        let b = last_max_index(packs, n - 1);
        if (util_before())(packs[b], packs[n - 1]) {
            b
        } else {
            n - 1
        }
    }
}

/// The packings tried for one count plan.
pub open spec fn plan_packs(
    products: Seq<ProductSpec>,
    counts: Seq<i32>,
    sheet_w: int,
    sheet_h: int,
    allow_rotation: bool,
) -> Seq<PackResultView> {
    packed_results(
        sheet_w,
        sheet_h,
        instances_for(products, counts),
        plan_seeds(),
        16,
        allow_rotation,
    )
}

/// A plan becomes a candidate layout when its area fits and some packing exists.
#[verifier::opaque]
pub open spec fn plan_passes(
    products: Seq<ProductSpec>,
    counts: Seq<i32>,
    sheet_w: int,
    sheet_h: int,
    allow_rotation: bool,
) -> bool {
    instance_area_sum(instances_for(products, counts)) <= sheet_w * sheet_h && plan_packs(
        products,
        counts,
        sheet_w,
        sheet_h,
        allow_rotation,
    ).len() > 0
}

#[verifier::opaque]
pub open spec fn plan_solution(
    products: Seq<ProductSpec>,
    d: i32,
    p: Seq<i32>,
    plan: CountPlanView,
    sheet_w: int,
    sheet_h: int,
    allow_rotation: bool,
) -> LayoutSolutionView {
    let packs = plan_packs(products, plan.counts, sheet_w, sheet_h, allow_rotation);
    let targets = targets_of(products);
    LayoutSolutionView {
        k: match plan.gcd_k {
            Some(k) => k,
            None => 0,
        },
        counts: plan.counts,
        pages: plan.pages,
        over: over_sum(targets, plan.counts, plan.pages as int, targets.len() as int) as i32,
        pack: packs[last_max_index(packs, packs.len() as int)],
        d: d,
        p: p,
    }
}

/// The candidate layouts of the first `n` plans, in plan order.
pub open spec fn feasible(
    products: Seq<ProductSpec>,
    d: i32,
    p: Seq<i32>,
    plans: Seq<CountPlanView>,
    n: int,
    sheet_w: int,
    sheet_h: int,
    allow_rotation: bool,
) -> Seq<LayoutSolutionView>
    decreases n,
{
    if n <= 0 {
        seq![]
    } else {
        let prev = feasible(products, d, p, plans, n - 1, sheet_w, sheet_h, allow_rotation);
        if plan_passes(products, plans[n - 1].counts, sheet_w, sheet_h, allow_rotation) {
            prev.push(plan_solution(products, d, p, plans[n - 1], sheet_w, sheet_h, allow_rotation))
        } else {
            prev
        }
    }
}

/// The fewest sheets among the candidates.
pub open spec fn min_pages(s: Seq<LayoutSolutionView>) -> int
    decreases s.len(),
{
    if s.len() == 0 {
        0
    } else if s.len() == 1 {
        s[0].pages as int
    } else {
        let m = min_pages(s.drop_last());
        if (s.last().pages as int) < m {
            s.last().pages as int
        } else {
            m
        }
    }
}

/// The candidates with exactly `m` sheets, in order.
pub open spec fn tier(s: Seq<LayoutSolutionView>, m: int) -> Seq<LayoutSolutionView>
    decreases s.len(),
{
    if s.len() == 0 {
        seq![]
    } else {
        let prev = tier(s.drop_last(), m);
        if s.last().pages == m {
            prev.push(s.last())
        } else {
            prev
        }
    }
}

/// Within a tier: higher utilization first, then less overproduction.
pub open spec fn tier_before() -> spec_fn(LayoutSolutionView, LayoutSolutionView) -> bool {
    |a: LayoutSolutionView, b: LayoutSolutionView|
        (util_before())(a.pack, b.pack) || (!(util_before())(b.pack, a.pack) && a.over < b.over)
}

/// The count plans the solver tries: `k * p` up to the capped `k`, then the ceiling
/// family.
pub open spec fn solve_plans(sheet_w: int, sheet_h: int, products: Seq<ProductSpec>, k_max: Option<
    i32,
>) -> Seq<CountPlanView> {
    let targets = targets_of(products);
    let p = divided(targets, (spec_gcd_many(targets) as i32) as int);
    let kk = solve_k_max(spec_area_k_cap(p, dims_of(products), sheet_w, sheet_h), k_max);
    count_plans(targets, p, kk)
}

/// The candidate layouts: one for each plan that packs, in plan order.
pub open spec fn solve_candidates(
    sheet_w: int,
    sheet_h: int,
    products: Seq<ProductSpec>,
    k_max: Option<i32>,
    allow_rotation: bool,
) -> Seq<LayoutSolutionView> {
    let targets = targets_of(products);
    let d = spec_gcd_many(targets) as i32;
    let p = divided(targets, d as int);
    let plans = solve_plans(sheet_w, sheet_h, products, k_max);
    feasible(products, d, p, plans, plans.len() as int, sheet_w, sheet_h, allow_rotation)
}

/// Minimize sheets, then maximize utilization, then minimize overproduction (the first
/// plan wins ties).
pub open spec fn spec_solve(
    sheet_w: int,
    sheet_h: int,
    products: Seq<ProductSpec>,
    k_max: Option<i32>,
    allow_rotation: bool,
) -> Option<LayoutSolutionView> {
    let targets = targets_of(products);
    if products.len() == 0 || !all_positive(targets) {
        None
    } else {
        let f = solve_candidates(sheet_w, sheet_h, products, k_max, allow_rotation);
        if f.len() == 0 {
            None
        } else {
            Some(sort_by(tier(f, min_pages(f)), tier_before())[0])
        }
    }
}

/// What the solver needs so that none of its `i32` arithmetic overflows: an area cap
/// at least 100 below `i32::MAX`, enumerable plans, and overproduction in range for every plan that
/// packs.
pub open spec fn solve_fits(
    sheet_w: int,
    sheet_h: int,
    products: Seq<ProductSpec>,
    k_max: Option<i32>,
    allow_rotation: bool,
) -> bool {
    let targets = targets_of(products);
    products.len() > 0 && all_positive(targets) ==> {
        let d = spec_gcd_many(targets) as i32;
        let p = divided(targets, d as int);
        let cap = spec_area_k_cap(p, dims_of(products), sheet_w, sheet_h);
        let kk = solve_k_max(cap, k_max);
        let plans = count_plans(targets, p, kk);
        &&& cap <= i32::MAX - 100
        &&& plans_fit(targets, p, kk)
        &&& forall|i: int|
            0 <= i < plans.len() && plan_passes(
                products,
                #[trigger] plans[i].counts,
                sheet_w,
                sheet_h,
                allow_rotation,
            ) ==> over_fits(targets, plans[i].counts, plans[i].pages as int)
    }
}

pub open spec fn opt_solution_view(o: Option<LayoutSolution>) -> Option<LayoutSolutionView> {
    match o {
        Some(s) => Some(s@),
        None => None,
    }
}

fn targets_from_products(products: &[ProductSpec]) -> (t: Vec<i32>)
    ensures
        t@ == targets_of(products@),
{
    let mut t: Vec<i32> = Vec::new();
    let mut i: usize = 0;
    while i < products.len()
        invariant
            0 <= i <= products@.len(),
            t@ == targets_of(products@.take(i as int)),
        decreases products@.len() - i,
    {
        t.push(products[i].target);
        assert(targets_of(products@.take(i + 1)) =~= targets_of(products@.take(i as int)).push(
            products@[i as int].target,
        ));
        i += 1;
    }
    assert(products@.take(products@.len() as int) =~= products@);
    t
}

fn dims_from_products(products: &[ProductSpec]) -> (d: Vec<(i32, i32)>)
    ensures
        d@ == dims_of(products@),
{
    let mut d: Vec<(i32, i32)> = Vec::new();
    let mut i: usize = 0;
    while i < products.len()
        invariant
            0 <= i <= products@.len(),
            d@ == dims_of(products@.take(i as int)),
        decreases products@.len() - i,
    {
        d.push((products[i].w, products[i].h));
        assert(dims_of(products@.take(i + 1)) =~= dims_of(products@.take(i as int)).push(
            (products@[i as int].w, products@[i as int].h),
        ));
        i += 1;
    }
    assert(products@.take(products@.len() as int) =~= products@);
    d
}

/// The instances of one count plan: product `i` repeated `counts[i]` times.
fn instances_from_counts(products: &[ProductSpec], counts: &[i32]) -> (out: Vec<PackInstance>)
    ensures
        out@ == instances_for(products@, counts@),
{
    let n = if products.len() < counts.len() { products.len() } else { counts.len() };
    let mut rows: Vec<SkuRow> = Vec::new();
    let mut i: usize = 0;
    while i < n
        invariant
            0 <= i <= n,
            n == (if products@.len() < counts@.len() { products@.len() } else { counts@.len() }),
            rows@ == rows_for(products@, counts@).take(i as int),
        decreases n - i,
    {
        let p = &products[i];
        rows.push(SkuRow {
            id: p.id.clone(),
            w: p.w,
            h: p.h,
            count: counts[i],
            allow_rotation: p.allow_rotation,
        });
        assert(rows@ =~= rows_for(products@, counts@).take(i + 1));
        i += 1;
    }
    assert(rows@ =~= rows_for(products@, counts@));
    expand_instances(rows.as_slice())
}

proof fn lemma_expanded_from_rows(rows: Seq<SkuRow>)
    ensures
        forall|k: int|
            0 <= k < expanded(rows).len() ==> exists|r: int|
                0 <= r < rows.len() && #[trigger] expanded(rows)[k] == row_instance(rows[r]),
    decreases rows.len(),
{
    if rows.len() > 0 {
        let d = rows.drop_last();
        lemma_expanded_from_rows(d);
        let e = expanded(rows);
        let ed = expanded(d);
        assert forall|k: int| 0 <= k < e.len() implies exists|r: int|
            0 <= r < rows.len() && #[trigger] e[k] == row_instance(rows[r]) by {
            if k < ed.len() {
                let r = choose|r: int| 0 <= r < d.len() && #[trigger] ed[k] == row_instance(d[r]);
                assert(e[k] == ed[k]);
                assert(rows[r] == d[r]);
            } else {
                assert(e[k] == row_instance(rows[rows.len() - 1]));
            }
        }
    }
}

fn copy_counts(v: &Vec<i32>) -> (r: Vec<i32>)
    ensures
        r@ == v@,
{
    let mut r: Vec<i32> = Vec::new();
    let mut i: usize = 0;
    while i < v.len()
        invariant
            0 <= i <= v@.len(),
            r@ == v@.take(i as int),
        decreases v@.len() - i,
    {
        r.push(v[i]);
        assert(v@.take(i + 1) =~= v@.take(i as int).push(v@[i as int]));
        i += 1;
    }
    assert(v@.take(v@.len() as int) =~= v@);
    r
}

fn best_pack_index(packs: &Vec<PackResult>) -> (b: usize)
    requires
        packs@.len() > 0,
    ensures
        b == last_max_index(results_view(packs@), packs@.len() as int),
        b < packs@.len(),
{
    let ghost rv = results_view(packs@);
    let mut b: usize = 0;
    let mut i: usize = 1;
    while i < packs.len()
        invariant
            1 <= i <= packs@.len(),
            rv == results_view(packs@),
            b < i,
            b == last_max_index(rv, i as int),
        decreases packs@.len() - i,
    {
        let keep = packs[b].sheet_area == packs[i].sheet_area && (if packs[b].sheet_area > 0 {
            packs[b].placed_area > packs[i].placed_area
        } else if packs[b].sheet_area < 0 {
            packs[b].placed_area < packs[i].placed_area
        } else {
            false
        });
        assert(keep == (util_before())(rv[b as int], rv[i as int]));
        if !keep {
            b = i;
        }
        i += 1;
    }
    b
}

pub open spec fn solutions_view(v: Seq<LayoutSolution>) -> Seq<LayoutSolutionView> {
    v.map_values(|x: LayoutSolution| x@)
}

proof fn lemma_solutions_view_insert(v: Seq<LayoutSolution>, j: int, x: LayoutSolution)
    requires
        0 <= j <= v.len(),
    ensures
        solutions_view(v.insert(j, x)) == solutions_view(v).insert(j, x@),
{
    v.insert_ensures(j, x);
    solutions_view(v).insert_ensures(j, x@);
    assert(solutions_view(v.insert(j, x)) =~= solutions_view(v).insert(j, x@));
}

fn tier_before_exec(a: &LayoutSolution, b: &LayoutSolution) -> (r: bool)
    ensures
        r == (tier_before())(a@, b@),
{
    let ab = a.pack.sheet_area == b.pack.sheet_area && (if a.pack.sheet_area > 0 {
        a.pack.placed_area > b.pack.placed_area
    } else if a.pack.sheet_area < 0 {
        a.pack.placed_area < b.pack.placed_area
    } else {
        false
    });
    let ba = b.pack.sheet_area == a.pack.sheet_area && (if b.pack.sheet_area > 0 {
        b.pack.placed_area > a.pack.placed_area
    } else if b.pack.sheet_area < 0 {
        b.pack.placed_area < a.pack.placed_area
    } else {
        false
    });
    ab || (!ba && a.overproduction < b.overproduction)
}

/// The best candidate: fewest sheets, then best utilization, then least
/// overproduction, earliest first.
fn pick_best(feas: Vec<LayoutSolution>) -> (r: LayoutSolution)
    requires
        feas@.len() > 0,
    ensures
        r@ == sort_by(
            tier(solutions_view(feas@), min_pages(solutions_view(feas@))),
            tier_before(),
        )[0],
{
    let ghost f = solutions_view(feas@);
    let mut mp: i32 = feas[0].pages;
    let mut i: usize = 1;
    assert(f.take(1).drop_last() =~= Seq::<LayoutSolutionView>::empty());
    while i < feas.len()
        invariant
            1 <= i <= feas@.len(),
            f == solutions_view(feas@),
            mp == min_pages(f.take(i as int)),
        decreases feas@.len() - i,
    {
        assert(f.take(i + 1).drop_last() =~= f.take(i as int));
        if feas[i].pages < mp {
            mp = feas[i].pages;
        }
        i += 1;
    }
    assert(f.take(f.len() as int) =~= f);
    let ghost t = tier(f, mp as int);
    let mut rest = feas;
    let mut tv: Vec<LayoutSolution> = Vec::new();
    let n = rest.len();
    let mut j: usize = 0;
    while j < n
        invariant
            0 <= j <= n,
            n == f.len(),
            rest@.len() == n - j,
            forall|k: int| 0 <= k < n - j ==> #[trigger] rest@[k]@ == f[j + k],
            solutions_view(tv@) == tier(f.take(j as int), mp as int),
        decreases n - j,
    {
        let ghost r0 = rest@;
        let x = rest.remove(0);
        assert(x@ == f[j as int]);
        assert forall|k: int| 0 <= k < n - (j + 1) implies #[trigger] rest@[k]@ == f[j + 1 + k] by {
            assert(rest@[k] == r0[k + 1]);
        }
        assert(f.take(j + 1).drop_last() =~= f.take(j as int));
        if x.pages == mp {
            let ghost tv0 = tv@;
            tv.push(x);
            assert(solutions_view(tv@) =~= solutions_view(tv0).push(f[j as int]));
        }
        j += 1;
    }
    assert(f.take(n as int) =~= f);
    // stable sort of the tier
    let ghost tvv = solutions_view(tv@);
    let mut src = tv;
    let mut out: Vec<LayoutSolution> = Vec::new();
    let m = src.len();
    let mut a: usize = 0;
    while a < m
        invariant
            0 <= a <= m,
            m == tvv.len(),
            src@.len() == m - a,
            forall|k: int| 0 <= k < m - a ==> #[trigger] src@[k]@ == tvv[a + k],
            solutions_view(out@) == sort_by(tvv.take(a as int), tier_before()),
        decreases m - a,
    {
        let ghost s0 = src@;
        let x = src.remove(0);
        assert(x@ == tvv[a as int]);
        assert forall|k: int| 0 <= k < m - (a + 1) implies #[trigger] src@[k]@ == tvv[a + 1 + k] by {
            assert(src@[k] == s0[k + 1]);
        }
        let mut q: usize = out.len();
        while q > 0 && tier_before_exec(&x, &out[q - 1])
            invariant
                0 <= q <= out@.len(),
                forall|k: int|
                    q <= k < out@.len() ==> #[trigger] (tier_before())(x@, solutions_view(out@)[k]),
            decreases q,
        {
            q -= 1;
        }
        proof {
            lemma_insert_at(solutions_view(out@), x@, tier_before(), q as int);
            lemma_sort_prefix_step(tvv, tier_before(), a as int);
            lemma_solutions_view_insert(out@, q as int, x);
        }
        out.insert(q, x);
        a += 1;
    }
    assert(tvv.take(m as int) =~= tvv);
    proof {
        lemma_min_pages_in_tier(f);
        crate::sorting::lemma_sort_len(tvv, tier_before());
    }
    out.remove(0)
}

/// Some candidate has the fewest sheets, so that tier is not empty.
proof fn lemma_min_pages_in_tier(f: Seq<LayoutSolutionView>)
    requires
        f.len() > 0,
    ensures
        tier(f, min_pages(f)).len() > 0,
{
    lemma_min_pages_attained(f);
    let w = choose|i: int| 0 <= i < f.len() && #[trigger] f[i].pages == min_pages(f);
    lemma_tier_contains(f, min_pages(f), w);
}

proof fn lemma_min_pages_attained(f: Seq<LayoutSolutionView>)
    requires
        f.len() > 0,
    ensures
        exists|i: int| 0 <= i < f.len() && #[trigger] f[i].pages == min_pages(f),
    decreases f.len(),
{
    if f.len() == 1 {
        assert(f[0].pages == min_pages(f));
    } else {
        let d = f.drop_last();
        lemma_min_pages_attained(d);
        if (f.last().pages as int) < min_pages(d) {
            assert(f[f.len() - 1].pages == min_pages(f));
        } else {
            let w = choose|i: int| 0 <= i < d.len() && #[trigger] d[i].pages == min_pages(d);
            assert(f[w].pages == min_pages(f));
        }
    }
}

proof fn lemma_tier_contains(f: Seq<LayoutSolutionView>, m: int, w: int)
    requires
        0 <= w < f.len(),
        f[w].pages == m,
    ensures
        tier(f, m).len() > 0,
    decreases f.len(),
{
    if w < f.len() - 1 {
        lemma_tier_contains(f.drop_last(), m, w);
    }
}

/// Why a layout search stopped: some of its `i32` arithmetic would leave that type's
/// range.
#[derive(Debug, Clone, Copy, PartialEq, Eq, Structural)]
pub enum SolveError {
    Overflow,
}

/// The layout search on any input: `Err` exactly when its `i32` arithmetic would leave
/// range (where `solve_layout` requires otherwise), else `solve_layout`'s answer.
pub fn try_solve_layout(
    sheet_w: i32,
    sheet_h: i32,
    products: &[ProductSpec],
    options: &SolveOptions,
) -> (r: Result<Option<LayoutSolution>, SolveError>)
    ensures
        r is Err <==> !solve_fits(
            sheet_w as int,
            sheet_h as int,
            products@,
            options.k_max,
            options.allow_rotation,
        ),
        r matches Ok(o) ==> opt_solution_view(o) == spec_solve(
            sheet_w as int,
            sheet_h as int,
            products@,
            options.k_max,
            options.allow_rotation,
        ),
{
    if products.len() == 0 {
        return Ok(None);
    }
    let targets = targets_from_products(products);
    let pattern = match compute_proportion_pattern(targets.as_slice()) {
        Ok(p) => p,
        Err(_) => {
            return Ok(None);
        },
    };
    let ghost tg = targets@;
    let ghost d = pattern.d;
    let ghost pp = pattern.p@;
    assert(all_positive(tg));
    assert(d == spec_gcd_many(tg) as i32);
    let dims = dims_from_products(products);
    let area_cap = area_k_cap(&pattern, sheet_w, sheet_h, dims.as_slice());
    if area_cap > i32::MAX - 100 {
        return Err(SolveError::Overflow);
    }
    let k_cap: i32 = match options.k_max {
        Some(k) => k,
        None => 500,
    };
    let m: i32 = (if area_cap < 1 { 1 } else { area_cap }) + 100;
    let k0 = if k_cap < m { k_cap } else { m };
    let k_max = if k0 < 1 { 1 } else if k0 > 2000 { 2000 } else { k0 };
    assert(k_max == solve_k_max(spec_area_k_cap(pp, dims_of(products@), sheet_w as int, sheet_h as int), options.k_max));
    if !count_plans_fit(targets.as_slice(), &pattern, k_max) {
        return Err(SolveError::Overflow);
    }
    let plans = enumerate_count_plans(targets.as_slice(), &pattern, k_max);
    let ghost pv = plans_view(plans@);
    assert(pv == solve_plans(sheet_w as int, sheet_h as int, products@, options.k_max));
    let allow_rot = options.allow_rotation;
    let mut feas: Vec<LayoutSolution> = Vec::new();
    let mut i: usize = 0;
    while i < plans.len()
        invariant
            0 <= i <= plans@.len(),
            pv == plans_view(plans@),
            pv == count_plans(tg, pp, k_max as int),
            pv == solve_plans(sheet_w as int, sheet_h as int, products@, options.k_max),
            tg == targets@,
            tg == targets_of(products@),
            products@.len() > 0,
            all_positive(tg),
            d == pattern.d,
            pp == pattern.p@,
            d == spec_gcd_many(tg) as i32,
            pp == divided(tg, d as int),
            k_max == solve_k_max(spec_area_k_cap(pp, dims_of(products@), sheet_w as int, sheet_h as int), options.k_max),
            allow_rot == options.allow_rotation,
            spec_area_k_cap(pp, dims_of(products@), sheet_w as int, sheet_h as int) <= i32::MAX - 100,
            plans_fit(tg, pp, k_max as int),
            forall|j: int|
                0 <= j < i && plan_passes(
                    products@,
                    #[trigger] pv[j].counts,
                    sheet_w as int,
                    sheet_h as int,
                    allow_rot,
                ) ==> over_fits(tg, pv[j].counts, pv[j].pages as int),
            solutions_view(feas@) == feasible(
                products@,
                d,
                pp,
                pv,
                i as int,
                sheet_w as int,
                sheet_h as int,
                allow_rot,
            ),
        decreases plans@.len() - i,
    {
        proof {
            reveal(plan_passes);
            reveal(plan_solution);
        }
        let plan = &plans[i];
        let ghost pl = pv[i as int];
        assert(pl.counts == plan.counts@ && pl.pages == plan.pages && pl.gcd_k == plan.gcd_k);
        let instances = instances_from_counts(products, plan.counts.as_slice());
        if trivial_area_feasible(instances.as_slice(), sheet_w, sheet_h) {
            let opts = PackOptions {
                max_solutions: 16,
                seeds: plan_seed_list(),
                allow_rotation: allow_rot,
            };
            let mut packs = pack_multi_stage(sheet_w, sheet_h, instances.as_slice(), &opts);
            let ghost pk = results_view(packs@);
            assert(pk == plan_packs(products@, pl.counts, sheet_w as int, sheet_h as int, allow_rot));
            if packs.len() > 0 {
                assert(plan_passes(products@, pv[i as int].counts, sheet_w as int, sheet_h as int, allow_rot));
                if !overproduction_fits(targets.as_slice(), plan.counts.as_slice(), plan.pages) {
                    return Err(SolveError::Overflow);
                }
                let b = best_pack_index(&packs);
                let best = packs.remove(b);
                assert(best@ == pk[b as int]);
                let over = total_overproduction(targets.as_slice(), plan.counts.as_slice(), plan.pages);
                let k = match plan.gcd_k {
                    Some(k) => k,
                    None => 0,
                };
                let pat_copy = ProportionPattern { d: pattern.d, p: copy_counts(&pattern.p) };
                let sol = LayoutSolution {
                    k: k,
                    counts_per_page: copy_counts(&plan.counts),
                    pages: plan.pages,
                    overproduction: over,
                    pack: best,
                    pattern: pat_copy,
                };
                assert(sol@ == plan_solution(products@, d, pp, pl, sheet_w as int, sheet_h as int, allow_rot));
                let ghost f0 = feas@;
                feas.push(sol);
                assert(solutions_view(feas@) =~= solutions_view(f0).push(sol@));
            } else {
                assert(!plan_passes(products@, pv[i as int].counts, sheet_w as int, sheet_h as int, allow_rot));
            }
        } else {
            assert(!plan_passes(products@, pv[i as int].counts, sheet_w as int, sheet_h as int, allow_rot));
        }
        i += 1;
    }
    assert(solve_fits(sheet_w as int, sheet_h as int, products@, options.k_max, options.allow_rotation));
    if feas.len() == 0 {
        return Ok(None);
    }
    Ok(Some(pick_best(feas)))
}

/// Minimize press sheets, then maximize utilization, then minimize overproduction.
#[must_use]
pub fn solve_layout(sheet_w: i32, sheet_h: i32, products: &[ProductSpec], options: &SolveOptions) -> (r:
    Option<LayoutSolution>)
    requires
        solve_fits(
            sheet_w as int,
            sheet_h as int,
            products@,
            options.k_max,
            options.allow_rotation,
        ),
    ensures
        opt_solution_view(r) == spec_solve(
            sheet_w as int,
            sheet_h as int,
            products@,
            options.k_max,
            options.allow_rotation,
        ),
{
    match try_solve_layout(sheet_w, sheet_h, products, options) {
        Ok(r) => r,
        Err(_) => None,
    }
}

#[verifier::spinoff_prover]
#[verifier::rlimit(50)]
proof fn lemma_feasible_elements(
    products: Seq<ProductSpec>,
    d: i32,
    p: Seq<i32>,
    plans: Seq<CountPlanView>,
    n: int,
    sheet_w: int,
    sheet_h: int,
    allow_rotation: bool,
)
    requires
        0 <= n <= plans.len(),
    ensures
        forall|m: int|
            0 <= m < feasible(products, d, p, plans, n, sheet_w, sheet_h, allow_rotation).len()
                ==> exists|j: int|
                0 <= j < n && plan_passes(products, plans[j].counts, sheet_w, sheet_h, allow_rotation)
                    && #[trigger] feasible(products, d, p, plans, n, sheet_w, sheet_h, allow_rotation)[m]
                    == plan_solution(products, d, p, plans[j], sheet_w, sheet_h, allow_rotation),
        forall|j: int|
            0 <= j < n && plan_passes(products, #[trigger] plans[j].counts, sheet_w, sheet_h, allow_rotation)
                ==> exists|m: int|
                0 <= m < feasible(products, d, p, plans, n, sheet_w, sheet_h, allow_rotation).len()
                    && feasible(products, d, p, plans, n, sheet_w, sheet_h, allow_rotation)[m]
                    == plan_solution(products, d, p, plans[j], sheet_w, sheet_h, allow_rotation),
    decreases n,
{
    if n > 0 {
        lemma_feasible_elements(products, d, p, plans, n - 1, sheet_w, sheet_h, allow_rotation);
        let prev = feasible(products, d, p, plans, n - 1, sheet_w, sheet_h, allow_rotation);
        let f = feasible(products, d, p, plans, n, sheet_w, sheet_h, allow_rotation);
        assert forall|m: int| 0 <= m < f.len() implies exists|j: int|
            0 <= j < n && plan_passes(products, plans[j].counts, sheet_w, sheet_h, allow_rotation)
                && #[trigger] f[m] == plan_solution(products, d, p, plans[j], sheet_w, sheet_h, allow_rotation) by {
            if m < prev.len() {
                assert(f[m] == prev[m]);
                let j = choose|j: int|
                    0 <= j < n - 1 && plan_passes(products, plans[j].counts, sheet_w, sheet_h, allow_rotation)
                        && #[trigger] prev[m] == plan_solution(products, d, p, plans[j], sheet_w, sheet_h, allow_rotation);
                assert(0 <= j < n);
            } else {
                assert(f[m] == plan_solution(products, d, p, plans[n - 1], sheet_w, sheet_h, allow_rotation));
            }
        }
        assert forall|j: int|
            0 <= j < n && plan_passes(products, #[trigger] plans[j].counts, sheet_w, sheet_h, allow_rotation)
            implies exists|m: int|
            0 <= m < f.len() && f[m] == plan_solution(products, d, p, plans[j], sheet_w, sheet_h, allow_rotation) by {
            if j < n - 1 {
                let m = choose|m: int|
                    0 <= m < prev.len() && prev[m] == plan_solution(products, d, p, plans[j], sheet_w, sheet_h, allow_rotation);
                assert(f[m] == prev[m]);
            } else {
                assert(f[prev.len() as int] == plan_solution(products, d, p, plans[j], sheet_w, sheet_h, allow_rotation));
            }
        }
    }
}

proof fn lemma_min_pages_le(f: Seq<LayoutSolutionView>, j: int)
    requires
        0 <= j < f.len(),
    ensures
        min_pages(f) <= f[j].pages,
    decreases f.len(),
{
    if f.len() > 1 && j < f.len() - 1 {
        lemma_min_pages_le(f.drop_last(), j);
    }
}

proof fn lemma_tier_elements(f: Seq<LayoutSolutionView>, m: int)
    ensures
        forall|i: int|
            #![trigger tier(f, m)[i]]
            0 <= i < tier(f, m).len() ==> tier(f, m)[i].pages == m && f.contains(tier(f, m)[i]),
    decreases f.len(),
{
    if f.len() > 0 {
        let d = f.drop_last();
        lemma_tier_elements(d, m);
        let td = tier(d, m);
        let tf = tier(f, m);
        assert forall|i: int| 0 <= i < tf.len() implies #[trigger] tf[i].pages == m && f.contains(tf[i]) by {
            if i < td.len() {
                assert(tf[i] == td[i]);
                assert(td[i].pages == m && d.contains(td[i]));
                let j = choose|j: int| 0 <= j < d.len() && d[j] == td[i];
                assert(f[j] == d[j]);
            } else {
                assert(tf[i] == f[f.len() - 1]);
            }
        }
    }
}

#[verifier::spinoff_prover]
#[verifier::rlimit(40)]
proof fn lemma_plan_solution_fields(
    products: Seq<ProductSpec>,
    d: i32,
    p: Seq<i32>,
    pl: CountPlanView,
    sheet_w: int,
    sheet_h: int,
    allow_rotation: bool,
)
    ensures
        ({
            let s = plan_solution(products, d, p, pl, sheet_w, sheet_h, allow_rotation);
            &&& s.counts == pl.counts
            &&& s.pages == pl.pages
            &&& s.d == d
            &&& s.p == p
            &&& s.k == (match pl.gcd_k {
                Some(k) => k,
                None => 0,
            })
            &&& plan_passes(products, pl.counts, sheet_w, sheet_h, allow_rotation) ==> valid_packing(
                s.pack,
                sheet_w,
                sheet_h,
            )
        }),
{
    reveal(plan_solution);
    reveal(plan_passes);
    let packs = plan_packs(products, pl.counts, sheet_w, sheet_h, allow_rotation);
    if packs.len() > 0 {
        lemma_last_max_in_range(packs, packs.len() as int);
        packings_are_valid(
            sheet_w,
            sheet_h,
            instances_for(products, pl.counts),
            plan_seeds(),
            16,
            allow_rotation,
        );
        let b = last_max_index(packs, packs.len() as int);
        assert(valid_packing(packs[b], sheet_w, sheet_h));
    }
}

proof fn lemma_last_max_in_range(packs: Seq<PackResultView>, n: int)
    requires
        n >= 1,
    ensures
        0 <= last_max_index(packs, n) < n,
    decreases n,
{
    if n > 1 {
        lemma_last_max_in_range(packs, n - 1);
    }
}

/// The best of a nonempty list of candidates is one of them, and has the fewest sheets.
proof fn lemma_best_of(f: Seq<LayoutSolutionView>)
    requires
        f.len() > 0,
    ensures
        f.contains(sort_by(tier(f, min_pages(f)), tier_before())[0]),
        sort_by(tier(f, min_pages(f)), tier_before())[0].pages == min_pages(f),
        forall|m: int| 0 <= m < f.len() ==> min_pages(f) <= #[trigger] f[m].pages,
{
    let mm = min_pages(f);
    let tr = tier(f, mm);
    lemma_min_pages_in_tier(f);
    lemma_sort_len(tr, tier_before());
    lemma_sort_elements(tr, tier_before());
    lemma_tier_elements(f, mm);
    let st = sort_by(tr, tier_before());
    assert(tr.contains(st[0]));
    let a = choose|a: int| 0 <= a < tr.len() && tr[a] == st[0];
    assert(tr[a].pages == mm && f.contains(tr[a]));
    assert forall|m: int| 0 <= m < f.len() implies min_pages(f) <= #[trigger] f[m].pages by {
        lemma_min_pages_le(f, m);
    }
}

/// The solver's answer is the candidate of a plan that packs, and no plan that packs
/// needs fewer sheets.
#[verifier::spinoff_prover]
#[verifier::rlimit(40)]
proof fn lemma_solve_choice(
    sheet_w: int,
    sheet_h: int,
    products: Seq<ProductSpec>,
    k_max: Option<i32>,
    allow_rotation: bool,
) -> (j: int)
    requires
        spec_solve(sheet_w, sheet_h, products, k_max, allow_rotation) is Some,
    ensures
        ({
            let t = targets_of(products);
            let d = spec_gcd_many(t) as i32;
            let plans = solve_plans(sheet_w, sheet_h, products, k_max);
            &&& products.len() > 0
            &&& all_positive(t)
            &&& 0 <= j < plans.len()
            &&& plan_passes(products, plans[j].counts, sheet_w, sheet_h, allow_rotation)
            &&& spec_solve(sheet_w, sheet_h, products, k_max, allow_rotation)->0 == plan_solution(
                products,
                d,
                divided(t, d as int),
                plans[j],
                sheet_w,
                sheet_h,
                allow_rotation,
            )
            &&& forall|jj: int|
                0 <= jj < plans.len() && plan_passes(
                    products,
                    #[trigger] plans[jj].counts,
                    sheet_w,
                    sheet_h,
                    allow_rotation,
                ) ==> plans[j].pages <= plans[jj].pages
        }),
{
    let t = targets_of(products);
    let d = spec_gcd_many(t) as i32;
    let p = divided(t, d as int);
    let plans = solve_plans(sheet_w, sheet_h, products, k_max);
    let f = feasible(products, d, p, plans, plans.len() as int, sheet_w, sheet_h, allow_rotation);
    lemma_feasible_elements(products, d, p, plans, plans.len() as int, sheet_w, sheet_h, allow_rotation);
    lemma_best_of(f);
    let s = sort_by(tier(f, min_pages(f)), tier_before())[0];
    let m = choose|m: int| 0 <= m < f.len() && f[m] == s;
    let j = choose|j: int|
        0 <= j < plans.len() && plan_passes(products, plans[j].counts, sheet_w, sheet_h, allow_rotation)
            && #[trigger] f[m] == plan_solution(products, d, p, plans[j], sheet_w, sheet_h, allow_rotation);
    lemma_plan_solution_fields(products, d, p, plans[j], sheet_w, sheet_h, allow_rotation);
    assert forall|jj: int|
        0 <= jj < plans.len() && plan_passes(products, #[trigger] plans[jj].counts, sheet_w, sheet_h, allow_rotation)
        implies plans[j].pages <= plans[jj].pages by {
        let mj = choose|mj: int|
            0 <= mj < f.len() && f[mj] == plan_solution(products, d, p, plans[jj], sheet_w, sheet_h, allow_rotation);
        lemma_plan_solution_fields(products, d, p, plans[jj], sheet_w, sheet_h, allow_rotation);
        assert(min_pages(f) <= f[mj].pages);
    }
    j
}

/// The chosen layout prints every target (`counts_i * pages >= T_i`, with every count at
/// least 1); `pages` is the fewest sheets for its counts; a positive `k` means
/// `counts == k * p`, so `pages` is `P(k)`, and `k` is 0 when its plan records none; its packing stays on
/// the sheet without overlaps; the pattern gives back the targets; and no plan that packs
/// needs fewer sheets.
#[verifier::spinoff_prover]
#[verifier::rlimit(40)]
pub proof fn solution_meets_targets(
    sheet_w: int,
    sheet_h: int,
    products: Seq<ProductSpec>,
    k_max: Option<i32>,
    allow_rotation: bool,
)
    requires
        spec_solve(sheet_w, sheet_h, products, k_max, allow_rotation) is Some,
    ensures
        ({
            let s = spec_solve(sheet_w, sheet_h, products, k_max, allow_rotation)->0;
            let t = targets_of(products);
            let plans = solve_plans(sheet_w, sheet_h, products, k_max);
            &&& s.counts.len() == products.len()
            &&& forall|i: int|
                0 <= i < products.len() ==> #[trigger] s.counts[i] >= 1 && s.counts[i] * s.pages
                    >= products[i].target
            &&& s.pages as int == max_pages(t, s.counts, t.len() as int)
            &&& s.k >= 0
            &&& s.k > 0 ==> s.counts == scaled(s.p, s.k as int)
            &&& valid_packing(s.pack, sheet_w, sheet_h)
            &&& s.d > 0
            &&& s.p.len() == products.len()
            &&& forall|i: int| 0 <= i < products.len() ==> s.d * #[trigger] s.p[i] == products[i].target
            &&& forall|j: int|
                0 <= j < plans.len() && plan_passes(
                    products,
                    #[trigger] plans[j].counts,
                    sheet_w,
                    sheet_h,
                    allow_rotation,
                ) ==> s.pages <= plans[j].pages
        }),
{
    let j = lemma_solve_choice(sheet_w, sheet_h, products, k_max, allow_rotation);
    let t = targets_of(products);
    let s = spec_solve(sheet_w, sheet_h, products, k_max, allow_rotation)->0;
    let g = spec_gcd_many(t);
    pattern_is_primitive(t);
    lemma_gcd_upto_bounds(t, t.len() as int);
    let d = g as i32;
    assert(d as int == g);
    let p = divided(t, d as int);
    let plans = solve_plans(sheet_w, sheet_h, products, k_max);
    let kk = solve_k_max(spec_area_k_cap(p, dims_of(products), sheet_w, sheet_h), k_max);
    assert(plans == count_plans(t, p, kk));
    count_plans_wf(t, p, kk);
    let pl = plans[j];
    assert(plan_wf(pl, t, p));
    lemma_plan_solution_fields(products, d, p, pl, sheet_w, sheet_h, allow_rotation);
    pages_cover_targets(t, pl.counts);
    assert forall|i: int| 0 <= i < products.len() implies #[trigger] s.counts[i] >= 1 && s.counts[i]
        * s.pages >= products[i].target by {
        assert(t[i] == products[i].target);
        assert(pl.counts[i] >= 1);
    }
    assert forall|i: int| 0 <= i < products.len() implies s.d * #[trigger] s.p[i] == products[i].target by {
        assert(t[i] == products[i].target);
    }
}

/// For inputs the solver runs on: the chosen layout's `k` is positive exactly when its
/// counts are `k * p` for some `k >= 1`, and then it is that `k`; it is 0 exactly for a
/// plan whose counts are no such multiple.
#[verifier::spinoff_prover]
#[verifier::rlimit(40)]
pub proof fn solution_k_is_exact(
    sheet_w: int,
    sheet_h: int,
    products: Seq<ProductSpec>,
    k_max: Option<i32>,
    allow_rotation: bool,
)
    requires
        spec_solve(sheet_w, sheet_h, products, k_max, allow_rotation) is Some,
        solve_fits(sheet_w, sheet_h, products, k_max, allow_rotation),
    ensures
        ({
            let s = spec_solve(sheet_w, sheet_h, products, k_max, allow_rotation)->0;
            &&& s.k > 0 ==> is_multiple(s.counts, s.p, s.k as int)
            &&& s.k == 0 <==> forall|k: int| k >= 1 ==> !#[trigger] is_multiple(s.counts, s.p, k)
        }),
{
    let j = lemma_solve_choice(sheet_w, sheet_h, products, k_max, allow_rotation);
    let t = targets_of(products);
    let s = spec_solve(sheet_w, sheet_h, products, k_max, allow_rotation)->0;
    let g = spec_gcd_many(t);
    pattern_is_primitive(t);
    lemma_gcd_upto_bounds(t, t.len() as int);
    let d = g as i32;
    assert(d as int == g);
    let p = divided(t, d as int);
    let plans = solve_plans(sheet_w, sheet_h, products, k_max);
    let kk = solve_k_max(spec_area_k_cap(p, dims_of(products), sheet_w, sheet_h), k_max);
    assert(plans == count_plans(t, p, kk));
    count_plans_wf(t, p, kk);
    count_plans_k_exact(t, p, kk);
    let pl = plans[j];
    assert(plan_wf(pl, t, p));
    assert(plan_k_exact(pl, t, p));
    lemma_plan_solution_fields(products, d, p, pl, sheet_w, sheet_h, allow_rotation);
}

/// With every product side at least 1 (and a plan whose instance list fits in memory),
/// the chosen layout's packing is a two-stage guillotine layout of its own mode on the
/// sheet, places exactly the plan's instances (one rectangle each, in its own
/// orientation or turned where allowed), and covers exactly their total area.
#[verifier::spinoff_prover]
#[verifier::rlimit(40)]
pub proof fn solution_packing_is_sound(
    sheet_w: i32,
    sheet_h: i32,
    products: Seq<ProductSpec>,
    k_max: Option<i32>,
    allow_rotation: bool,
)
    requires
        spec_solve(sheet_w as int, sheet_h as int, products, k_max, allow_rotation) is Some,
        forall|i: int| 0 <= i < products.len() ==> #[trigger] products[i].w >= 1 && products[i].h >= 1,
        instances_for(
            products,
            spec_solve(sheet_w as int, sheet_h as int, products, k_max, allow_rotation)->0.counts,
        ).len() <= usize::MAX,
    ensures
        ({
            let s = spec_solve(sheet_w as int, sheet_h as int, products, k_max, allow_rotation)->0;
            let inst = instances_for(products, s.counts);
            &&& crate::guillotine::two_stage_ok(
                s.pack.rects,
                s.pack.mode == crate::guillotine::PackMode::Hv,
                sheet_w as int,
                sheet_h as int,
            )
            &&& places_all(s.pack.rects, inst, allow_rotation)
            &&& s.pack.placed_area == instance_area_sum(inst)
        }),
{
    let w = sheet_w as int;
    let h = sheet_h as int;
    let j = lemma_solve_choice(w, h, products, k_max, allow_rotation);
    let t = targets_of(products);
    let d = spec_gcd_many(t) as i32;
    let p = divided(t, d as int);
    let plans = solve_plans(w, h, products, k_max);
    let pl = plans[j];
    let s = spec_solve(w, h, products, k_max, allow_rotation)->0;
    lemma_plan_solution_fields(products, d, p, pl, w, h, allow_rotation);
    let inst = instances_for(products, pl.counts);
    let rows = rows_for(products, pl.counts);
    lemma_expanded_from_rows(rows);
    assert forall|k: int| 0 <= k < inst.len() implies #[trigger] inst[k].w >= 1 && inst[k].h >= 1 by {
        let r = choose|r: int| 0 <= r < rows.len() && #[trigger] inst[k] == row_instance(rows[r]);
        assert(inst[k].w == products[r].w && inst[k].h == products[r].h);
    }
    packings_are_two_stage(w, h, inst, plan_seeds(), 16, allow_rotation);
    packings_place_instances(w, h, inst, plan_seeds(), 16, allow_rotation);
    packings_cover_instance_area(w, h, inst, plan_seeds(), 16, allow_rotation);
    let packs = plan_packs(products, pl.counts, w, h, allow_rotation);
    assert(s == plan_solution(products, d, p, pl, w, h, allow_rotation));
    assert(plan_passes(products, pl.counts, w, h, allow_rotation));
    assert(s.pack == packs[last_max_index(packs, packs.len() as int)]) by {
        reveal(plan_solution);
    }
    assert(packs.len() > 0) by {
        reveal(plan_passes);
    }
    lemma_last_max_in_range(packs, packs.len() as int);
}

proof fn lemma_tier_has(f: Seq<LayoutSolutionView>, m: int, w: int)
    requires
        0 <= w < f.len(),
        f[w].pages == m,
    ensures
        tier(f, m).contains(f[w]),
    decreases f.len(),
{
    let t = tier(f, m);
    if w < f.len() - 1 {
        lemma_tier_has(f.drop_last(), m, w);
        let td = tier(f.drop_last(), m);
        let q = choose|q: int| 0 <= q < td.len() && td[q] == f.drop_last()[w];
        assert(t[q] == td[q]);
    } else {
        assert(t[t.len() - 1] == f[w]);
    }
}

/// Among the candidates of one sheet, `tier_before` is a strict weak order.
proof fn lemma_tier_strict_weak(area: int)
    ensures
        strict_weak_on(tier_before(), |c: LayoutSolutionView| c.pack.sheet_area == area),
{
}

/// Among the candidates with the fewest sheets, none has a strictly higher utilization
/// than the chosen layout, and none with the same utilization has less overproduction.
#[verifier::spinoff_prover]
#[verifier::rlimit(40)]
pub proof fn solution_is_best_in_tier(
    sheet_w: int,
    sheet_h: int,
    products: Seq<ProductSpec>,
    k_max: Option<i32>,
    allow_rotation: bool,
)
    requires
        spec_solve(sheet_w, sheet_h, products, k_max, allow_rotation) is Some,
    ensures
        ({
            let s = spec_solve(sheet_w, sheet_h, products, k_max, allow_rotation)->0;
            let f = solve_candidates(sheet_w, sheet_h, products, k_max, allow_rotation);
            &&& f.contains(s)
            &&& forall|m: int| 0 <= m < f.len() ==> s.pages <= #[trigger] f[m].pages
            &&& forall|m: int|
                0 <= m < f.len() && (#[trigger] f[m]).pages == s.pages ==> !(util_before())(
                    f[m].pack,
                    s.pack,
                ) && (!(util_before())(s.pack, f[m].pack) ==> s.over <= f[m].over)
        }),
{
    let s = spec_solve(sheet_w, sheet_h, products, k_max, allow_rotation)->0;
    let t = targets_of(products);
    let d = spec_gcd_many(t) as i32;
    let p = divided(t, d as int);
    let plans = solve_plans(sheet_w, sheet_h, products, k_max);
    let f = solve_candidates(sheet_w, sheet_h, products, k_max, allow_rotation);
    lemma_feasible_elements(products, d, p, plans, plans.len() as int, sheet_w, sheet_h, allow_rotation);
    lemma_best_of(f);
    let mm = min_pages(f);
    let tr = tier(f, mm);
    let st = sort_by(tr, tier_before());
    assert(s == st[0]);
    let area = sheet_w * sheet_h;
    let dom = |c: LayoutSolutionView| c.pack.sheet_area == area;
    assert forall|m: int| 0 <= m < f.len() implies dom(#[trigger] f[m]) by {
        let j = choose|j: int|
            0 <= j < plans.len() && plan_passes(products, plans[j].counts, sheet_w, sheet_h, allow_rotation)
                && #[trigger] f[m] == plan_solution(products, d, p, plans[j], sheet_w, sheet_h, allow_rotation);
        lemma_plan_solution_fields(products, d, p, plans[j], sheet_w, sheet_h, allow_rotation);
    }
    lemma_tier_elements(f, mm);
    assert forall|i: int| 0 <= i < tr.len() implies dom(#[trigger] tr[i]) by {
        let m = choose|m: int| 0 <= m < f.len() && f[m] == tr[i];
        assert(dom(f[m]));
    }
    lemma_tier_strict_weak(area);
    lemma_sort_ordered(tr, tier_before(), dom);
    lemma_sort_contains(tr, tier_before());
    assert forall|m: int|
        0 <= m < f.len() && (#[trigger] f[m]).pages == s.pages implies !(util_before())(f[m].pack, s.pack)
        && (!(util_before())(s.pack, f[m].pack) ==> s.over <= f[m].over) by {
        lemma_tier_has(f, mm, m);
        let q0 = choose|q: int| 0 <= q < tr.len() && tr[q] == f[m];
        assert(st.contains(tr[q0]));
        let q = choose|q: int| 0 <= q < st.len() && st[q] == tr[q0];
        if q > 0 {
            assert(!(tier_before())(st[q], st[0]));
        }
    }
}


proof fn lemma_feasible_nonempty(
    products: Seq<ProductSpec>,
    d: i32,
    p: Seq<i32>,
    plans: Seq<CountPlanView>,
    n: int,
    sheet_w: int,
    sheet_h: int,
    allow_rotation: bool,
    j: int,
)
    requires
        0 <= j < n <= plans.len(),
        plan_passes(products, plans[j].counts, sheet_w, sheet_h, allow_rotation),
    ensures
        feasible(products, d, p, plans, n, sheet_w, sheet_h, allow_rotation).len() > 0,
    decreases n,
{
    if j < n - 1 {
        lemma_feasible_nonempty(products, d, p, plans, n - 1, sheet_w, sheet_h, allow_rotation, j);
    }
}

/// For a valid request (a sheet and product sides of at least 1, some products, every
/// target at least 1): when one of the plans the solver enumerates has at most 12
/// instances and those split into lanes that fit the sheet — columns (`t == false`) or
/// rows (`t == true`) — the solver finds a layout.
pub proof fn solve_finds_a_layout_for_a_lane_split(
    sheet_w: i32,
    sheet_h: i32,
    products: Seq<ProductSpec>,
    k_max: Option<i32>,
    allow_rotation: bool,
    j: int,
    t: bool,
    col: Seq<int>,
    rot: Seq<bool>,
    widths: Seq<int>,
)
    requires
        sheet_w >= 1,
        sheet_h >= 1,
        products.len() > 0,
        all_positive(targets_of(products)),
        forall|i: int| 0 <= i < products.len() ==> #[trigger] products[i].w >= 1 && products[i].h >= 1,
        0 <= j < solve_plans(sheet_w as int, sheet_h as int, products, k_max).len(),
        instances_for(products, solve_plans(sheet_w as int, sheet_h as int, products, k_max)[j].counts).len()
            <= 12,
        fits_in_lanes(
            instances_for(products, solve_plans(sheet_w as int, sheet_h as int, products, k_max)[j].counts),
            t,
            allow_rotation,
            if t { sheet_h as int } else { sheet_w as int },
            if t { sheet_w as int } else { sheet_h as int },
            col,
            rot,
            widths,
        ),
    ensures
        spec_solve(sheet_w as int, sheet_h as int, products, k_max, allow_rotation) is Some,
{
    let w = sheet_w as int;
    let h = sheet_h as int;
    let plans = solve_plans(w, h, products, k_max);
    let counts = plans[j].counts;
    let inst = instances_for(products, counts);
    let rows = rows_for(products, counts);
    lemma_expanded_from_rows(rows);
    assert forall|k: int| 0 <= k < inst.len() implies #[trigger] inst[k].w >= 1 && inst[k].h >= 1 by {
        let r = choose|r: int| 0 <= r < rows.len() && #[trigger] inst[k] == row_instance(rows[r]);
        assert(inst[k].w == products[r].w && inst[k].h == products[r].h);
    }
    let l1 = if t { h } else { w };
    let l2 = if t { w } else { h };
    split_area_fits(inst, t, allow_rotation, l1, l2, col, rot, widths);
    assert(l1 * l2 == w * h) by (nonlinear_arith)
        requires
            (l1 == w && l2 == h) || (l1 == h && l2 == w),
    ;
    assert(plan_seeds()[2] == OrderSeed::Default);
    assert(effective_seeds(plan_seeds()) == plan_seeds());
    packing_found_for_a_lane_split(w, h, inst, plan_seeds(), 16, allow_rotation, t, col, rot, widths);
    reveal(plan_passes);
    assert(plan_passes(products, counts, w, h, allow_rotation));
    let t = targets_of(products);
    let d = spec_gcd_many(t) as i32;
    let p = divided(t, d as int);
    lemma_feasible_nonempty(products, d, p, plans, plans.len() as int, w, h, allow_rotation, j);
}


/// For a valid request (a sheet and product sides of at least 1, some products, every
/// target at least 1): when one of the plans the solver enumerates has at most 12
/// instances and some two-stage layout (V–H for `t == false`, H–V for `t == true`) on
/// the sheet places them one for one, the solver finds a layout.
pub proof fn solve_finds_a_layout_when_one_exists(
    sheet_w: i32,
    sheet_h: i32,
    products: Seq<ProductSpec>,
    k_max: Option<i32>,
    allow_rotation: bool,
    j: int,
    t: bool,
    rects: Seq<crate::guillotine::PlacedRect>,
)
    requires
        sheet_w >= 1,
        sheet_h >= 1,
        products.len() > 0,
        all_positive(targets_of(products)),
        forall|i: int| 0 <= i < products.len() ==> #[trigger] products[i].w >= 1 && products[i].h >= 1,
        0 <= j < solve_plans(sheet_w as int, sheet_h as int, products, k_max).len(),
        instances_for(products, solve_plans(sheet_w as int, sheet_h as int, products, k_max)[j].counts).len()
            <= 12,
        crate::guillotine::two_stage_ok(rects, t, sheet_w as int, sheet_h as int),
        places_all(
            rects,
            instances_for(products, solve_plans(sheet_w as int, sheet_h as int, products, k_max)[j].counts),
            allow_rotation,
        ),
    ensures
        spec_solve(sheet_w as int, sheet_h as int, products, k_max, allow_rotation) is Some,
{
    let w = sheet_w as int;
    let h = sheet_h as int;
    let plans = solve_plans(w, h, products, k_max);
    let counts = plans[j].counts;
    let inst = instances_for(products, counts);
    let rows = rows_for(products, counts);
    lemma_expanded_from_rows(rows);
    assert forall|k: int| 0 <= k < inst.len() implies #[trigger] inst[k].w >= 1 && inst[k].h >= 1 by {
        let r = choose|r: int| 0 <= r < rows.len() && #[trigger] inst[k] == row_instance(rows[r]);
        assert(inst[k].w == products[r].w && inst[k].h == products[r].h);
    }
    let split = layout_gives_a_lane_split(rects, inst, t, allow_rotation, w, h);
    solve_finds_a_layout_for_a_lane_split(
        sheet_w,
        sheet_h,
        products,
        k_max,
        allow_rotation,
        j,
        t,
        split.0,
        split.1,
        split.2,
    );
}


/// The largest scale `k` tried is within every cap: the given `k_max` (at least 1), 500
/// when none is given, the area cap plus 100 (the cap taken as at least 1), and 2000; and
/// every `k >= 1` within all of them is tried.
proof fn lemma_k_max_caps(area_cap: int, k_max: Option<i32>, k: int)
    ensures
        1 <= solve_k_max(area_cap, k_max) <= 2000,
        k_max matches Some(m) ==> solve_k_max(area_cap, k_max) <= (if m < 1 { 1 } else { m as int }),
        k_max is None ==> solve_k_max(area_cap, k_max) <= 500,
        solve_k_max(area_cap, k_max) <= (if area_cap < 1 { 1 } else { area_cap }) + 100,
        (1 <= k <= 2000 && (k_max matches Some(m) ==> k <= m) && (k_max is None ==> k <= 500) && k <= (
        if area_cap < 1 { 1 } else { area_cap }) + 100) ==> k <= solve_k_max(area_cap, k_max),
{
}

/// The count plans the solver tries: each is `k * p` for a `k >= 1` within every cap —
/// the given `k_max` (taken as at least 1), 500 when none is given, the products' area
/// cap plus 100 (taken as at least 1), and 2000 — or the ceiling plan `ceil(T / q)` for
/// some `1 <= q <= max T`; and every such `k * p` and ceiling plan with all counts at
/// least 1 is tried.
pub proof fn solver_plans_respect_k_max(
    sheet_w: int,
    sheet_h: int,
    products: Seq<ProductSpec>,
    k_max: Option<i32>,
)
    ensures
        ({
            let t = targets_of(products);
            let p = divided(t, (spec_gcd_many(t) as i32) as int);
            let cap = spec_area_k_cap(p, dims_of(products), sheet_w, sheet_h);
            let capk = (if cap < 1 { 1 } else { cap }) + 100;
            let plans = solve_plans(sheet_w, sheet_h, products, k_max);
            &&& forall|i: int|
                0 <= i < plans.len() ==> (exists|k: int|
                    1 <= k <= 2000 && (k_max matches Some(m) ==> k <= (if m < 1 { 1 } else { m as int }))
                        && (k_max is None ==> k <= 500) && k <= capk && (#[trigger] plans[i]).counts
                        == scaled(p, k)) || (exists|q: int|
                    1 <= q <= max_target(t) && plans[i].counts == ceil_counts(t, q))
            &&& forall|k: int|
                1 <= k <= 2000 && (k_max matches Some(m) ==> k <= m) && (k_max is None ==> k <= 500) && k
                    <= capk && counts_positive(#[trigger] scaled(p, k)) ==> exists|i: int|
                    0 <= i < plans.len() && plans[i].counts == scaled(p, k)
            &&& forall|q: int|
                1 <= q <= max_target(t) && counts_positive(#[trigger] ceil_counts(t, q)) ==> exists|i: int|
                    0 <= i < plans.len() && plans[i].counts == ceil_counts(t, q)
        }),
{
    let t = targets_of(products);
    let p = divided(t, (spec_gcd_many(t) as i32) as int);
    let cap = spec_area_k_cap(p, dims_of(products), sheet_w, sheet_h);
    let capk = (if cap < 1 { 1 } else { cap }) + 100;
    let kk = solve_k_max(cap, k_max);
    let plans = solve_plans(sheet_w, sheet_h, products, k_max);
    assert(plans == count_plans(t, p, kk));
    count_plans_distinct_and_complete(t, p, kk);
    lemma_k_max_caps(cap, k_max, 0);
    assert forall|i: int| 0 <= i < plans.len() implies (exists|k: int|
        1 <= k <= 2000 && (k_max matches Some(m) ==> k <= (if m < 1 { 1 } else { m as int })) && (k_max
            is None ==> k <= 500) && k <= capk && (#[trigger] plans[i]).counts == scaled(p, k)) || (exists|
        q: int,
    | 1 <= q <= max_target(t) && plans[i].counts == ceil_counts(t, q)) by {
        if exists|k: int| 1 <= k <= kk && plans[i].counts == scaled(p, k) {
            let k = choose|k: int| 1 <= k <= kk && plans[i].counts == scaled(p, k);
            assert(1 <= k <= 2000 && (k_max matches Some(m) ==> k <= (if m < 1 { 1 } else { m as int }))
                && (k_max is None ==> k <= 500) && k <= capk && plans[i].counts == scaled(p, k));
        }
    }
    assert forall|k: int|
        1 <= k <= 2000 && (k_max matches Some(m) ==> k <= m) && (k_max is None ==> k <= 500) && k <= capk
            && counts_positive(#[trigger] scaled(p, k)) implies exists|i: int|
        0 <= i < plans.len() && plans[i].counts == scaled(p, k) by {
        lemma_k_max_caps(cap, k_max, k);
    }
}


/// On a sheet of positive area, no candidate that needs as few sheets as the chosen
/// layout covers more of the sheet, and one that covers the same area has at least as
/// much overproduction.
#[verifier::spinoff_prover]
#[verifier::rlimit(40)]
pub proof fn solution_has_best_utilization(
    sheet_w: int,
    sheet_h: int,
    products: Seq<ProductSpec>,
    k_max: Option<i32>,
    allow_rotation: bool,
)
    requires
        spec_solve(sheet_w, sheet_h, products, k_max, allow_rotation) is Some,
        sheet_w * sheet_h > 0,
    ensures
        ({
            let s = spec_solve(sheet_w, sheet_h, products, k_max, allow_rotation)->0;
            let f = solve_candidates(sheet_w, sheet_h, products, k_max, allow_rotation);
            &&& s.pack.sheet_area == sheet_w * sheet_h
            &&& forall|m: int|
                0 <= m < f.len() && (#[trigger] f[m]).pages == s.pages ==> f[m].pack.placed_area
                    <= s.pack.placed_area && (f[m].pack.placed_area == s.pack.placed_area ==> s.over
                    <= f[m].over)
        }),
{
    let s = spec_solve(sheet_w, sheet_h, products, k_max, allow_rotation)->0;
    let t = targets_of(products);
    let d = spec_gcd_many(t) as i32;
    let p = divided(t, d as int);
    let plans = solve_plans(sheet_w, sheet_h, products, k_max);
    let f = solve_candidates(sheet_w, sheet_h, products, k_max, allow_rotation);
    solution_is_best_in_tier(sheet_w, sheet_h, products, k_max, allow_rotation);
    lemma_feasible_elements(products, d, p, plans, plans.len() as int, sheet_w, sheet_h, allow_rotation);
    assert forall|m: int| 0 <= m < f.len() implies (#[trigger] f[m]).pack.sheet_area == sheet_w * sheet_h by {
        let j = choose|j: int|
            0 <= j < plans.len() && plan_passes(products, plans[j].counts, sheet_w, sheet_h, allow_rotation)
                && #[trigger] f[m] == plan_solution(products, d, p, plans[j], sheet_w, sheet_h, allow_rotation);
        lemma_plan_solution_fields(products, d, p, plans[j], sheet_w, sheet_h, allow_rotation);
    }
    let ms = choose|m: int| 0 <= m < f.len() && f[m] == s;
    assert(s.pack.sheet_area == sheet_w * sheet_h);
    assert forall|m: int|
        0 <= m < f.len() && (#[trigger] f[m]).pages == s.pages implies f[m].pack.placed_area
        <= s.pack.placed_area && (f[m].pack.placed_area == s.pack.placed_area ==> s.over <= f[m].over) by {
        assert(f[m].pack.sheet_area == sheet_w * sheet_h);
        assert(!(util_before())(f[m].pack, s.pack));
        if f[m].pack.placed_area == s.pack.placed_area {
            assert(!(util_before())(s.pack, f[m].pack));
        }
    }
}

/// The last index among the first `n` packings with the greatest placed area.
#[verifier::spinoff_prover]
proof fn lemma_last_max(packs: Seq<PackResultView>, n: int, area: int)
    requires
        1 <= n <= packs.len(),
        area > 0,
        forall|i: int| 0 <= i < packs.len() ==> (#[trigger] packs[i]).sheet_area == area,
    ensures
        0 <= last_max_index(packs, n) < n,
        forall|j: int|
            0 <= j < n ==> (#[trigger] packs[j]).placed_area <= packs[last_max_index(packs, n)].placed_area,
        forall|j: int|
            last_max_index(packs, n) < j < n ==> (#[trigger] packs[j]).placed_area < packs[last_max_index(
                packs,
                n,
            )].placed_area,
    decreases n,
{
    if n > 1 {
        lemma_last_max(packs, n - 1, area);
        assert(packs[last_max_index(packs, n - 1)].sheet_area == area);
        assert(packs[n - 1].sheet_area == area);
    }
}

/// A plan that packs takes the last of its packings with the greatest placed area.
#[verifier::spinoff_prover]
proof fn lemma_plan_pack(
    products: Seq<ProductSpec>,
    d: i32,
    p: Seq<i32>,
    pl: CountPlanView,
    sheet_w: int,
    sheet_h: int,
    allow_rotation: bool,
)
    requires
        plan_passes(products, pl.counts, sheet_w, sheet_h, allow_rotation),
    ensures
        plan_packs(products, pl.counts, sheet_w, sheet_h, allow_rotation).len() > 0,
        plan_solution(products, d, p, pl, sheet_w, sheet_h, allow_rotation).pack == plan_packs(
            products,
            pl.counts,
            sheet_w,
            sheet_h,
            allow_rotation,
        )[last_max_index(
            plan_packs(products, pl.counts, sheet_w, sheet_h, allow_rotation),
            plan_packs(products, pl.counts, sheet_w, sheet_h, allow_rotation).len() as int,
        )],
{
    reveal(plan_passes);
    reveal(plan_solution);
}

/// Every packing of a plan records the sheet's area.
#[verifier::spinoff_prover]
proof fn lemma_packs_sheet_area(
    products: Seq<ProductSpec>,
    counts: Seq<i32>,
    sheet_w: int,
    sheet_h: int,
    allow_rotation: bool,
)
    ensures
        forall|i: int|
            0 <= i < plan_packs(products, counts, sheet_w, sheet_h, allow_rotation).len() ==> (
            #[trigger] plan_packs(products, counts, sheet_w, sheet_h, allow_rotation)[i]).sheet_area
                == sheet_w * sheet_h,
{
    packings_are_valid(sheet_w, sheet_h, instances_for(products, counts), plan_seeds(), 16, allow_rotation);
}

/// `pack` is one of `packs` with the greatest placed area, and the last such in their
/// order.
pub open spec fn is_last_best(pack: PackResultView, packs: Seq<PackResultView>) -> bool {
    &&& forall|j: int| 0 <= j < packs.len() ==> (#[trigger] packs[j]).placed_area <= pack.placed_area
    &&& exists|i: int|
        0 <= i < packs.len() && #[trigger] packs[i] == pack && forall|j: int|
            i < j < packs.len() ==> (#[trigger] packs[j]).placed_area < pack.placed_area
}

#[verifier::spinoff_prover]
proof fn lemma_plan_pack_best(
    products: Seq<ProductSpec>,
    d: i32,
    p: Seq<i32>,
    pl: CountPlanView,
    sheet_w: int,
    sheet_h: int,
    allow_rotation: bool,
)
    requires
        plan_passes(products, pl.counts, sheet_w, sheet_h, allow_rotation),
        sheet_w * sheet_h > 0,
    ensures
        is_last_best(
            plan_solution(products, d, p, pl, sheet_w, sheet_h, allow_rotation).pack,
            plan_packs(products, pl.counts, sheet_w, sheet_h, allow_rotation),
        ),
{
    lemma_plan_pack(products, d, p, pl, sheet_w, sheet_h, allow_rotation);
    lemma_packs_sheet_area(products, pl.counts, sheet_w, sheet_h, allow_rotation);
    lemma_is_last_best(plan_packs(products, pl.counts, sheet_w, sheet_h, allow_rotation), sheet_w * sheet_h);
}

proof fn lemma_is_last_best(packs: Seq<PackResultView>, area: int)
    requires
        packs.len() > 0,
        area > 0,
        forall|i: int| 0 <= i < packs.len() ==> (#[trigger] packs[i]).sheet_area == area,
    ensures
        is_last_best(packs[last_max_index(packs, packs.len() as int)], packs),
{
    lemma_last_max(packs, packs.len() as int, area);
    let i = last_max_index(packs, packs.len() as int);
    let pk = packs[i];
    assert(forall|j: int| i < j < packs.len() ==> (#[trigger] packs[j]).placed_area < pk.placed_area);
    assert(0 <= i < packs.len() && packs[i] == pk);
}

/// On a sheet of positive area, the chosen layout's packing is one of the packings found
/// for its plan: one with the greatest placed area, and the last such in their order.
#[verifier::spinoff_prover]
pub proof fn solution_pack_is_last_best(
    sheet_w: int,
    sheet_h: int,
    products: Seq<ProductSpec>,
    k_max: Option<i32>,
    allow_rotation: bool,
)
    requires
        spec_solve(sheet_w, sheet_h, products, k_max, allow_rotation) is Some,
        sheet_w * sheet_h > 0,
    ensures
        ({
            let s = spec_solve(sheet_w, sheet_h, products, k_max, allow_rotation)->0;
            is_last_best(s.pack, plan_packs(products, s.counts, sheet_w, sheet_h, allow_rotation))
        }),
{
    let j = lemma_solve_choice(sheet_w, sheet_h, products, k_max, allow_rotation);
    let t = targets_of(products);
    let d = spec_gcd_many(t) as i32;
    let p = divided(t, d as int);
    let plans = solve_plans(sheet_w, sheet_h, products, k_max);
    lemma_plan_solution_fields(products, d, p, plans[j], sheet_w, sheet_h, allow_rotation);
    lemma_plan_pack_best(products, d, p, plans[j], sheet_w, sheet_h, allow_rotation);
}

} // verus!
