use layout_rs::{
    solve_layout, solve_request, try_solve_layout, validate_request, ProductSpec, RequestError,
    SolveError, SolveOptions,
};

fn product(id: &str, w: i32, h: i32, target: i32) -> ProductSpec {
    ProductSpec { id: id.into(), w, h, target, allow_rotation: None }
}

#[test]
fn solution_meets_targets_on_fewest_sheets() {
    let products = vec![product("A", 100, 300, 1000), product("B", 70, 100, 2000)];
    let sol = solve_layout(700, 600, &products, &SolveOptions::default()).expect("solution");
    assert_eq!(sol.counts_per_page.len(), 2);
    for i in 0..2 {
        assert!(sol.counts_per_page[i] >= 1);
        assert!(sol.counts_per_page[i] * sol.pages >= products[i].target);
        assert_eq!(sol.pattern.d * sol.pattern.p[i], products[i].target);
    }
    assert!(sol.k >= 0);
    if sol.k > 0 {
        for i in 0..2 {
            assert_eq!(sol.counts_per_page[i], sol.k * sol.pattern.p[i]);
        }
    }
    let over: i32 = (0..2).map(|i| sol.counts_per_page[i] * sol.pages - products[i].target).sum();
    assert_eq!(sol.overproduction, over);
    assert_eq!(sol.pack.sheet_area, 420_000);
}

#[test]
fn no_products_or_bad_targets() {
    assert!(solve_layout(10, 10, &[], &SolveOptions::default()).is_none());
    assert!(solve_layout(10, 10, &[product("a", 1, 1, 0)], &SolveOptions::default()).is_none());
    assert!(solve_layout(10, 10, &[product("a", 20, 20, 1)], &SolveOptions::default()).is_none());
}

#[test]
fn overflow_is_reported() {
    let huge = vec![product("a", 1, 1, 1)];
    assert_eq!(
        try_solve_layout(100_000, 100_000, &huge, &SolveOptions::default()).map(|o| o.is_some()),
        Err(SolveError::Overflow)
    );
    assert_eq!(
        solve_request(100_000, 100_000, &huge, &SolveOptions::default()).map(|s| s.pages),
        Err(RequestError::Overflow)
    );
}

#[test]
fn request_checks() {
    let ok = vec![product("a", 1, 1, 1)];
    assert_eq!(validate_request(0, 5, &ok), Err(RequestError::BadSheet));
    assert_eq!(validate_request(5, -1, &ok), Err(RequestError::BadSheet));
    assert_eq!(validate_request(5, 5, &[]), Err(RequestError::NoProducts));
    assert_eq!(validate_request(5, 5, &[product("a", 0, 1, 1)]), Err(RequestError::BadProduct));
    assert_eq!(validate_request(5, 5, &[product("a", 1, 1, 0)]), Err(RequestError::BadProduct));
    assert_eq!(
        validate_request(5, 5, &[product("a", 1, 1, 1), product("b", 1, 1, 1), product("a", 2, 2, 2)]),
        Err(RequestError::BadProduct)
    );
    assert_eq!(validate_request(5, 5, &ok), Ok(()));
    assert_eq!(
        solve_request(5, 5, &[product("a", 9, 9, 1)], &SolveOptions::default()).map(|s| s.pages),
        Err(RequestError::NoLayout)
    );
    let sol = solve_request(10, 10, &ok, &SolveOptions::default()).expect("solution");
    assert_eq!(sol.pages, 1);
    assert_eq!(
        RequestError::BadProduct.message(),
        "Each product needs id, W, H, and quantity ≥ 1. Ids must be unique."
    );
    assert_eq!(RequestError::BadSheet.message(), "sheet width and height must be positive integers");
    assert_eq!(RequestError::NoProducts.message(), "at least one product is required");
}

#[test]
fn rotation_setting_is_respected() {
    let p = vec![ProductSpec { id: "a".into(), w: 40, h: 30, target: 1, allow_rotation: Some(false) }];
    assert!(solve_layout(30, 40, &p, &SolveOptions::default()).is_none());
    let q = vec![product("a", 40, 30, 1)];
    let sol = solve_layout(30, 40, &q, &SolveOptions::default()).expect("solution");
    assert!(sol.pack.rects[0].rotated);
    let none = SolveOptions { k_max: None, allow_rotation: false };
    assert!(solve_layout(30, 40, &q, &none).is_none());
}

#[test]
fn chosen_layout_is_best_among_fewest_sheets() {
    // Two plans reach one sheet; the chosen one has the best utilization.
    let products = vec![product("A", 10, 10, 2), product("B", 10, 10, 2)];
    let sol = solve_layout(40, 10, &products, &SolveOptions::default()).expect("solution");
    assert_eq!(sol.pages, 1);
    assert_eq!(sol.counts_per_page, vec![2, 2]);
    assert_eq!(sol.k, 2);
    assert_eq!(sol.overproduction, 0);
    assert_eq!(sol.pack.placed_area, 400);
    assert!(layout_rs::verify_two_stage(&sol.pack.rects, 40, 10));
}

#[test]
fn new_column_checks_the_other_side() {
    let products = vec![
        product("X", 10, 30, 1),
        ProductSpec { id: "Y".into(), w: 30, h: 10, target: 1, allow_rotation: Some(false) },
        ProductSpec { id: "Z".into(), w: 10, h: 20, target: 1, allow_rotation: Some(false) },
    ];
    let sol = solve_request(50, 20, &products, &SolveOptions::default()).expect("solution");
    assert_eq!(sol.pages, 1);
    assert_eq!(sol.counts_per_page, vec![1, 1, 1]);
    assert_eq!(sol.k, 1);
    assert_eq!(sol.overproduction, 0);
    assert!(layout_rs::verify_two_stage(&sol.pack.rects, 50, 20));
    for r in &sol.pack.rects {
        assert!(r.x >= 0 && r.y >= 0 && r.x + r.w <= 50 && r.y + r.h <= 20);
    }
}

#[test]
fn large_product_areas_are_no_overflow() {
    let big = vec![product("a", 50_000, 50_000, 1)];
    assert_eq!(
        solve_request(10, 10, &big, &SolveOptions::default()).map(|s| s.pages),
        Err(RequestError::NoLayout)
    );
    let sol = solve_request(60_000, 60_000, &big, &SolveOptions::default()).expect("solution");
    assert_eq!(sol.pages, 1);
    assert_eq!(sol.counts_per_page, vec![1]);
    assert_eq!(sol.pack.rects.len(), 1);
    assert_eq!(sol.pack.placed_area, 2_500_000_000);
}

#[test]
fn mixed_plan_has_k_zero() {
    // Targets 3 and 2 on a sheet that holds three items: the pattern (3, 2) itself does
    // not fit, so the chosen plan is the ceiling plan (2, 1), which is no multiple of it.
    let products = vec![product("A", 10, 10, 3), product("B", 10, 10, 2)];
    let sol = solve_layout(30, 10, &products, &SolveOptions::default()).expect("solution");
    assert_eq!(sol.k, 0);
    assert_eq!(sol.pages, 2);
    assert_eq!(sol.counts_per_page, vec![2, 1]);
    assert_eq!(sol.overproduction, 1);
}
