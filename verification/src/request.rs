//! A layout request as the front end sends it: its checks, the solve, and the per-sheet
//! summary of the answer.

use vstd::prelude::*;
use crate::layout_search::{
    opt_solution_view, solve_fits, spec_solve, try_solve_layout, LayoutSolution, ProductSpec,
    SolveOptions, solve_plans, instances_for, targets_of, solve_finds_a_layout_when_one_exists,
};
use crate::guillotine::{PlacedRect, two_stage_ok};
use crate::two_stage::places_all;
use crate::render::append_int;
use crate::text::decimal;

verus! {

/// Why a layout request was refused.
#[derive(Debug, Clone, Copy, PartialEq, Eq, Structural)]
pub enum RequestError {
    /// The sheet width or height is below 1.
    BadSheet,
    /// No products.
    NoProducts,
    /// A product has a side or quantity below 1, or two products share an id.
    BadProduct,
    /// The search's `i32` arithmetic would leave range.
    Overflow,
    /// No plan packs onto the sheet.
    NoLayout,
}

impl RequestError {
    /// The error's description.
    pub fn message(&self) -> (m: &'static str)
        ensures
            m@ == request_error_text(*self),
    {
        match self {
            RequestError::BadSheet => "sheet width and height must be positive integers",
            RequestError::NoProducts => "at least one product is required",
            RequestError::BadProduct => "Each product needs id, W, H, and quantity ≥ 1. Ids must be unique.",
            RequestError::Overflow => "arithmetic overflow",
            RequestError::NoLayout => "No feasible layout for this sheet and k range. Try a larger sheet, fewer items per sheet (lower k via max k), or smaller products.",
        }
    }
}

pub open spec fn request_error_text(e: RequestError) -> Seq<char> {
    match e {
        RequestError::BadSheet => "sheet width and height must be positive integers"@,
        RequestError::NoProducts => "at least one product is required"@,
        RequestError::BadProduct => "Each product needs id, W, H, and quantity ≥ 1. Ids must be unique."@,
        RequestError::Overflow => "arithmetic overflow"@,
        RequestError::NoLayout => "No feasible layout for this sheet and k range. Try a larger sheet, fewer items per sheet (lower k via max k), or smaller products."@,
    }
}

/// A product with both sides and its quantity at least 1.
pub open spec fn product_ok(p: ProductSpec) -> bool {
    p.w >= 1 && p.h >= 1 && p.target >= 1
}

/// Every product is valid and no two share an id.
pub open spec fn products_ok(ps: Seq<ProductSpec>) -> bool {
    &&& forall|i: int| 0 <= i < ps.len() ==> product_ok(#[trigger] ps[i])
    &&& forall|i: int, j: int| 0 <= i < j < ps.len() ==> (#[trigger] ps[i]).id@ != (#[trigger] ps[j]).id@
}

/// A request that can be answered: a sheet and a product list that are not empty, every
/// product with both sides and its quantity at least 1, and no id used twice.
pub open spec fn request_is_valid(sheet_w: int, sheet_h: int, products: Seq<ProductSpec>) -> bool {
    &&& sheet_w >= 1
    &&& sheet_h >= 1
    &&& products.len() > 0
    &&& forall|i: int|
        0 <= i < products.len() ==> (#[trigger] products[i]).w >= 1 && products[i].h >= 1
            && products[i].target >= 1
    &&& forall|i: int, j: int|
        0 <= i < j < products.len() ==> (#[trigger] products[i]).id@ != (#[trigger] products[j]).id@
}

/// The first check that a request fails, if any.
pub open spec fn request_check(sheet_w: int, sheet_h: int, products: Seq<ProductSpec>) -> Option<
    RequestError,
> {
    if sheet_w < 1 || sheet_h < 1 {
        Some(RequestError::BadSheet)
    } else if products.len() == 0 {
        Some(RequestError::NoProducts)
    } else if !products_ok(products) {
        Some(RequestError::BadProduct)
    } else {
        None
    }
}

/// Checks a request: the sheet, that there are products, and each product.
pub fn validate_request(sheet_w: i32, sheet_h: i32, products: &[ProductSpec]) -> (r: Result<
    (),
    RequestError,
>)
    ensures
        match r {
            Err(e) => request_check(sheet_w as int, sheet_h as int, products@) == Some(e),
            Ok(_) => request_check(sheet_w as int, sheet_h as int, products@) is None,
        },
        r is Ok <==> request_is_valid(sheet_w as int, sheet_h as int, products@),
        r is Ok ==> forall|i: int, j: int|
            0 <= i < j < products@.len() ==> (#[trigger] products@[i]).id@ != (#[trigger] products@[j]).id@,
{
    proof {
        lemma_request_check_valid(sheet_w as int, sheet_h as int, products@);
    }
    if sheet_w < 1 || sheet_h < 1 {
        return Err(RequestError::BadSheet);
    }
    if products.len() == 0 {
        return Err(RequestError::NoProducts);
    }
    let mut i: usize = 0;
    while i < products.len()
        invariant
            sheet_w >= 1 && sheet_h >= 1,
            products@.len() > 0,
            0 <= i <= products@.len(),
            forall|a: int| 0 <= a < i ==> product_ok(#[trigger] products@[a]),
            forall|a: int, b: int|
                0 <= a < b < i ==> (#[trigger] products@[a]).id@ != (#[trigger] products@[b]).id@,
        decreases products@.len() - i,
    {
        let p = &products[i];
        if p.w < 1 || p.h < 1 || p.target < 1 {
            assert(!product_ok(products@[i as int]));
            return Err(RequestError::BadProduct);
        }
        let mut j: usize = 0;
        while j < i
            invariant
                sheet_w >= 1 && sheet_h >= 1,
                0 <= j <= i < products@.len(),
                *p == products@[i as int],
                forall|a: int| 0 <= a < j ==> (#[trigger] products@[a]).id@ != p.id@,
            decreases i - j,
        {
            if products[j].id == p.id {
                assert(products@[j as int].id@ == products@[i as int].id@);
                return Err(RequestError::BadProduct);
            }
            j += 1;
        }
        i += 1;
    }
    Ok(())
}

/// What a request is answered: the first failed check, else the search's overflow, else
/// the best layout, or `NoLayout` when there is none.
pub open spec fn request_answer(
    sheet_w: int,
    sheet_h: int,
    products: Seq<ProductSpec>,
    k_max: Option<i32>,
    allow_rotation: bool,
) -> Result<crate::layout_search::LayoutSolutionView, RequestError> {
    match request_check(sheet_w, sheet_h, products) {
        Some(e) => Err(e),
        None => if !solve_fits(sheet_w, sheet_h, products, k_max, allow_rotation) {
            Err(RequestError::Overflow)
        } else {
            match spec_solve(sheet_w, sheet_h, products, k_max, allow_rotation) {
                Some(s) => Ok(s),
                None => Err(RequestError::NoLayout),
            }
        },
    }
}

/// Checks a request and solves it.
pub fn solve_request(sheet_w: i32, sheet_h: i32, products: &[ProductSpec], options: &SolveOptions) -> (r:
    Result<LayoutSolution, RequestError>)
    ensures
        match (r, request_answer(
            sheet_w as int,
            sheet_h as int,
            products@,
            options.k_max,
            options.allow_rotation,
        )) {
            (Ok(s), Ok(v)) => s@ == v,
            (Err(e), Err(f)) => e == f,
            _ => false,
        },
        r is Ok ==> request_is_valid(sheet_w as int, sheet_h as int, products@),
{
    proof {
        lemma_request_check_valid(sheet_w as int, sheet_h as int, products@);
    }
    match validate_request(sheet_w, sheet_h, products) {
        Err(e) => {
            return Err(e);
        },
        Ok(()) => {},
    }
    match try_solve_layout(sheet_w, sheet_h, products, options) {
        Err(_) => Err(RequestError::Overflow),
        Ok(None) => Err(RequestError::NoLayout),
        Ok(Some(s)) => Ok(s),
    }
}

/// The per-sheet counts line: `id×count` for each product, joined with `", "`.
pub open spec fn per_page_text(products: Seq<ProductSpec>, counts: Seq<i32>, n: int) -> Seq<char>
    decreases n,
{
    if n <= 0 {
        seq![]
    } else {
        let item = products[n - 1].id@ + "×"@ + decimal(counts[n - 1] as int);
        if n == 1 {
            item
        } else {
            per_page_text(products, counts, n - 1) + ", "@ + item
        }
    }
}

/// The per-sheet counts line of a solution, `id×count` joined with `", "`.
pub fn per_page_summary(products: &[ProductSpec], counts: &[i32]) -> (s: String)
    requires
        counts@.len() >= products@.len(),
    ensures
        s@ == per_page_text(products@, counts@, products@.len() as int),
{
    let mut s = String::new();
    let mut i: usize = 0;
    while i < products.len()
        invariant
            0 <= i <= products@.len(),
            counts@.len() >= products@.len(),
            s@ == per_page_text(products@, counts@, i as int),
        decreases products@.len() - i,
    {
        let ghost before = s@;
        if i > 0 {
            s.append(", ");
        }
        s.append(products[i].id.as_str());
        s.append("×");
        append_int(&mut s, counts[i]);
        assert(s@ =~= per_page_text(products@, counts@, i + 1));
        i += 1;
    }
    s
}


/// A valid request that the solver can run on is answered `NoLayout` only when no layout
/// exists: when one of the enumerated plans has at most 12 instances (where the search
/// is depth-first) and some two-stage layout (V–H for `t == false`, H–V for `t == true`)
/// on the sheet places them one for one, the answer is a layout.
pub proof fn no_layout_only_when_none_exists(
    sheet_w: i32,
    sheet_h: i32,
    products: Seq<ProductSpec>,
    k_max: Option<i32>,
    allow_rotation: bool,
    j: int,
    t: bool,
    rects: Seq<PlacedRect>,
)
    requires
        request_check(sheet_w as int, sheet_h as int, products) is None,
        solve_fits(sheet_w as int, sheet_h as int, products, k_max, allow_rotation),
        0 <= j < solve_plans(sheet_w as int, sheet_h as int, products, k_max).len(),
        instances_for(products, solve_plans(sheet_w as int, sheet_h as int, products, k_max)[j].counts).len()
            <= 12,
        two_stage_ok(rects, t, sheet_w as int, sheet_h as int),
        places_all(
            rects,
            instances_for(products, solve_plans(sheet_w as int, sheet_h as int, products, k_max)[j].counts),
            allow_rotation,
        ),
    ensures
        request_answer(sheet_w as int, sheet_h as int, products, k_max, allow_rotation) is Ok,
{
    assert forall|i: int| 0 <= i < products.len() implies #[trigger] products[i].w >= 1 && products[i].h
        >= 1 by {
        assert(product_ok(products[i]));
    }
    assert forall|i: int| 0 <= i < products.len() implies #[trigger] targets_of(products)[i] > 0 by {
        assert(product_ok(products[i]));
    }
    solve_finds_a_layout_when_one_exists(sheet_w, sheet_h, products, k_max, allow_rotation, j, t, rects);
}


/// A request passes every check exactly when it is valid: positive sheet sides, some
/// products, each product's sides and quantity at least 1, and no two products (at any
/// positions) with the same id.
pub proof fn lemma_request_check_valid(sheet_w: int, sheet_h: int, products: Seq<ProductSpec>)
    ensures
        request_check(sheet_w, sheet_h, products) is None <==> request_is_valid(sheet_w, sheet_h, products),
{
    if request_is_valid(sheet_w, sheet_h, products) {
        assert forall|i: int| 0 <= i < products.len() implies product_ok(#[trigger] products[i]) by {
            assert(products[i].w >= 1);
        }
    }
    if request_check(sheet_w, sheet_h, products) is None {
        assert forall|i: int| 0 <= i < products.len() implies (#[trigger] products[i]).w >= 1
            && products[i].h >= 1 && products[i].target >= 1 by {
            assert(product_ok(products[i]));
        }
    }
}

/// A request is answered with a layout only when it is valid; in particular no two of
/// its products share an id.
pub proof fn answered_requests_are_valid(
    sheet_w: int,
    sheet_h: int,
    products: Seq<ProductSpec>,
    k_max: Option<i32>,
    allow_rotation: bool,
)
    ensures
        request_answer(sheet_w, sheet_h, products, k_max, allow_rotation) is Ok ==> request_is_valid(
            sheet_w,
            sheet_h,
            products,
        ),
        request_answer(sheet_w, sheet_h, products, k_max, allow_rotation) is Ok ==> forall|i: int, j: int|
            0 <= i < j < products.len() ==> (#[trigger] products[i]).id@ != (#[trigger] products[j]).id@,
{
    lemma_request_check_valid(sheet_w, sheet_h, products);
}

} // verus!
